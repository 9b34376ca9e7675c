//! A cache of bounded capacity that evicts the least recently used entry.
use vstd::prelude::*;
use crate::default_map::{lemma_push_distinct, lemma_remove_distinct};

verus! {

/// The error of an LRU cache, with its message.
#[derive(Debug, Clone, PartialEq, Eq)]
pub struct LruCacheError(pub String);

/// What `setpop` hands back: an entry pushed out by a new key (`evicted`)
/// or the previous entry of an existing key.
#[derive(Debug, Clone)]
pub struct LruSetPop<V> {
    pub evicted: bool,
    pub key: String,
    pub value: V,
}

/// The keys of `entries`, most recent first.
pub open spec fn keys_of<V>(entries: Seq<(String, V)>) -> Seq<Seq<char>> {
    entries.map_values(|e: (String, V)| e.0@)
}

/// The place of `k` among `ks` (meaningful when `ks` holds it).
pub open spec fn place_of(ks: Seq<Seq<char>>, k: Seq<char>) -> int {
    choose|i: int| 0 <= i < ks.len() && ks[i] == k
}

/// The entries after `key` moves to the front with `value`, with the least
/// recent entry pushed out when a new key finds the cache full.
pub open spec fn after_set<V>(entries: Seq<(String, V)>, cap: nat, key: String, value: V) -> Seq<(String, V)> {
    if keys_of(entries).contains(key@) {
        seq![(key, value)] + entries.remove(place_of(keys_of(entries), key@))
    } else if entries.len() == cap {
        seq![(key, value)] + entries.drop_last()
    } else {
        seq![(key, value)] + entries
    }
}

/// The entries after setting every pair of `items` in turn.
pub open spec fn set_all<V>(entries: Seq<(String, V)>, cap: nat, items: Seq<(String, V)>) -> Seq<(String, V)>
    decreases items.len(),
{
    if items.len() == 0 {
        entries
    } else {
        set_all(after_set(entries, cap, items[0].0, items[0].1), cap, items.drop_first())
    }
}

/// A cache of at most `capacity` entries, the most recently used first.
#[derive(Debug, Clone)]
pub struct LruCache<V> {
    capacity: usize,
    entries: Vec<(String, V)>,
}

impl<V> View for LruCache<V> {
    type V = Seq<(String, V)>;

    /// The entries, most recently used first.
    closed spec fn view(&self) -> Seq<(String, V)> {
        self.entries@
    }
}

impl<V: Clone> LruCache<V> {
    /// A copy of the value of `key`, if it is a key, which becomes the most
    /// recent.
    pub fn get(&mut self, key: &String) -> (r: Option<V>)
        requires
            old(self).wf(),
        ensures
            final(self).wf(),
            final(self).cap() == old(self).cap(),
            !keys_of(old(self)@).contains(key@) ==> r is None && final(self)@ == old(self)@,
            keys_of(old(self)@).contains(key@) ==> (r matches Some(v) && cloned(
                old(self)@[place_of(keys_of(old(self)@), key@)].1,
                v,
            )) && final(self)@ == seq![old(self)@[place_of(keys_of(old(self)@), key@)]] + old(self)@.remove(
                place_of(keys_of(old(self)@), key@),
            ),
    {
        let index = match self.position(key) {
            Some(i) => i,
            None => {
                return None;
            },
        };
        let (k, value) = self.entries.remove(index);
        let result = value.clone();
        let ghost mid = self.entries@;
        proof {
            lemma_remove_distinct(keys_of(old(self)@), index as int);
            assert(keys_of(mid) =~= keys_of(old(self)@).remove(index as int));
            if keys_of(mid).contains(k@) {
                let q = choose|q: int| 0 <= q < keys_of(mid).len() && keys_of(mid)[q] == k@;
                let q1 = if q < index { q } else { q + 1 };
                assert(keys_of(old(self)@)[q1] == k@);
            }
        }
        self.entries.insert(0, (k, value));
        proof {
            assert(keys_of(self.entries@) =~= keys_of(mid).insert(0, k@));
            let ks = keys_of(self.entries@);
            assert forall|i: int, j: int| 0 <= i < ks.len() && 0 <= j < ks.len() && i != j implies ks[i] != ks[j] by {
                if i == 0 {
                    assert(ks[j] == keys_of(mid)[j - 1]);
                } else if j == 0 {
                    assert(ks[i] == keys_of(mid)[i - 1]);
                } else {
                    assert(ks[i] == keys_of(mid)[i - 1]);
                    assert(ks[j] == keys_of(mid)[j - 1]);
                }
            }
            assert(self.entries@ =~= seq![old(self)@[index as int]] + old(self)@.remove(index as int));
        }
        Some(result)
    }
}

impl<V> LruCache<V> {
    /// The capacity.
    pub closed spec fn cap(&self) -> nat {
        self.capacity as nat
    }

    /// A positive capacity, not exceeded, and distinct keys.
    pub closed spec fn wf(&self) -> bool {
        &&& 0 < self.capacity
        &&& self.entries@.len() <= self.capacity
        &&& keys_of(self.entries@).no_duplicates()
    }

    /// An empty cache of the given capacity; 0 is an error.
    pub fn new(capacity: usize) -> (r: Result<Self, LruCacheError>)
        ensures
            capacity == 0 <==> r is Err,
            r matches Err(e) ==> e.0@ == "mnemonist/lru-cache: capacity should be positive number."@,
            r matches Ok(c) ==> c.wf() && c@ == Seq::<(String, V)>::empty() && c.cap() == capacity,
    {
        if capacity == 0 {
            return Err(LruCacheError("mnemonist/lru-cache: capacity should be positive number.".to_string()));
        }
        let r = LruCache { capacity, entries: Vec::new() };
        proof {
            assert(keys_of(r.entries@) =~= Seq::<Seq<char>>::empty());
        }
        Ok(r)
    }

    /// The capacity.
    pub fn capacity(&self) -> (r: usize)
        ensures
            r == self.cap(),
    {
        self.capacity
    }

    /// The number of entries.
    pub fn size(&self) -> (r: usize)
        ensures
            r == self@.len(),
    {
        self.entries.len()
    }

    /// Removes every entry.
    pub fn clear(&mut self)
        requires
            old(self).wf(),
        ensures
            final(self).wf(),
            final(self)@ == Seq::<(String, V)>::empty(),
            final(self).cap() == old(self).cap(),
    {
        self.entries.clear();
        proof {
            assert(keys_of(self.entries@) =~= Seq::<Seq<char>>::empty());
        }
    }

    /// The place of `key`, if it is a key.
    fn position(&self, key: &String) -> (r: Option<usize>)
        requires
            self.wf(),
        ensures
            r is None <==> !keys_of(self@).contains(key@),
            r matches Some(i) ==> i < self@.len() && i == place_of(keys_of(self@), key@),
    {
        let mut i: usize = 0;
        while i < self.entries.len()
            invariant
                self.wf(),
                i <= self.entries@.len(),
                forall|k: int| 0 <= k < i ==> keys_of(self.entries@)[k] != key@,
            decreases self.entries@.len() - i,
        {
            if self.entries[i].0 == *key {
                proof {
                    let ks = keys_of(self.entries@);
                    assert(ks[i as int] == key@);
                    let p = place_of(ks, key@);
                    assert(ks[p] == key@);
                    assert(p == i);
                }
                return Some(i);
            }
            i = i + 1;
        }
        None
    }

    /// Whether `key` is a key.
    pub fn has(&self, key: &String) -> (r: bool)
        requires
            self.wf(),
        ensures
            r == keys_of(self@).contains(key@),
    {
        self.position(key).is_some()
    }

    /// Moves `key` to the front with `value`, pushing out the least recent
    /// entry when a new key finds the cache full.
    pub fn set(&mut self, key: String, value: V)
        requires
            old(self).wf(),
        ensures
            final(self).wf(),
            final(self).cap() == old(self).cap(),
            final(self)@ == after_set(old(self)@, old(self).cap(), key, value),
    {
        match self.position(&key) {
            Some(index) => {
                self.entries.remove(index);
            },
            None => {
                if self.entries.len() == self.capacity {
                    self.entries.pop();
                }
            },
        }
        proof {
            self.lemma_front_room(*old(self), key@);
        }
        let ghost mid = self.entries@;
        self.entries.insert(0, (key, value));
        proof {
            self.lemma_front_insert(*old(self), mid, key, value);
        }
    }

    /// The entries without `key`, and with room for it in front.
    proof fn lemma_front_room(&self, before: LruCache<V>, key: Seq<char>)
        requires
            before.wf(),
            self.capacity == before.capacity,
            keys_of(before@).contains(key) ==> self@ == before@.remove(place_of(keys_of(before@), key)),
            !keys_of(before@).contains(key) && before@.len() == before.cap() ==> self@ == before@.drop_last(),
            !keys_of(before@).contains(key) && before@.len() < before.cap() ==> self@ == before@,
        ensures
            keys_of(self@).no_duplicates(),
            !keys_of(self@).contains(key),
            self@.len() < self.capacity,
    {
        let ks = keys_of(before@);
        if ks.contains(key) {
            let p = place_of(ks, key);
            assert(keys_of(self@) =~= ks.remove(p));
            lemma_remove_distinct(ks, p);
            if keys_of(self@).contains(key) {
                let q = choose|q: int| 0 <= q < keys_of(self@).len() && keys_of(self@)[q] == key;
                let q1 = if q < p { q } else { q + 1 };
                assert(ks[q1] == key);
                assert(ks[p] == key);
            }
        } else if before@.len() == before.cap() {
            assert(keys_of(self@) =~= ks.drop_last());
            lemma_remove_distinct(ks, ks.len() - 1);
            assert(ks.drop_last() =~= ks.remove(ks.len() - 1));
            if keys_of(self@).contains(key) {
                let q = choose|q: int| 0 <= q < keys_of(self@).len() && keys_of(self@)[q] == key;
                assert(ks[q] == key);
            }
        }
    }

    /// Moves `key` to the front with `value`; hands back the previous entry
    /// of the key, or the entry pushed out when a new key finds the cache
    /// full.
    pub fn setpop(&mut self, key: String, value: V) -> (r: Option<LruSetPop<V>>)
        requires
            old(self).wf(),
        ensures
            final(self).wf(),
            final(self).cap() == old(self).cap(),
            final(self)@ == after_set(old(self)@, old(self).cap(), key, value),
            keys_of(old(self)@).contains(key@) ==> (r matches Some(p) && !p.evicted && (p.key, p.value)
                == old(self)@[place_of(keys_of(old(self)@), key@)]),
            !keys_of(old(self)@).contains(key@) && old(self)@.len() == old(self).cap() ==> (r matches Some(p)
                && p.evicted && (p.key, p.value) == old(self)@.last()),
            !keys_of(old(self)@).contains(key@) && old(self)@.len() < old(self).cap() ==> r is None,
    {
        let r = match self.position(&key) {
            Some(index) => {
                let (old_key, old_value) = self.entries.remove(index);
                Some(LruSetPop { evicted: false, key: old_key, value: old_value })
            },
            None => {
                if self.entries.len() == self.capacity {
                    match self.entries.pop() {
                        Some((old_key, old_value)) => Some(LruSetPop { evicted: true, key: old_key, value: old_value }),
                        None => None,
                    }
                } else {
                    None
                }
            },
        };
        proof {
            self.lemma_front_room(*old(self), key@);
        }
        let ghost mid = self.entries@;
        let k2 = key.clone();
        self.entries.insert(0, (k2, value));
        proof {
            self.lemma_front_insert(*old(self), mid, key, value);
        }
        r
    }

    /// The value of `key`, if it is a key, which becomes the most recent.
    pub fn peek(&self, key: &String) -> (r: Option<&V>)
        requires
            self.wf(),
        ensures
            !keys_of(self@).contains(key@) ==> r is None,
            keys_of(self@).contains(key@) ==> r == Some(&self@[place_of(keys_of(self@), key@)].1),
    {
        match self.position(key) {
            Some(i) => Some(&self.entries[i].1),
            None => None,
        }
    }

    /// Removes the entry of `key`; returns whether there was one.
    pub fn delete(&mut self, key: &String) -> (r: bool)
        requires
            old(self).wf(),
        ensures
            final(self).wf(),
            final(self).cap() == old(self).cap(),
            r == keys_of(old(self)@).contains(key@),
            !r ==> final(self)@ == old(self)@,
            r ==> final(self)@ == old(self)@.remove(place_of(keys_of(old(self)@), key@)),
    {
        match self.position(key) {
            Some(index) => {
                self.entries.remove(index);
                proof {
                    assert(keys_of(self.entries@) =~= keys_of(old(self)@).remove(index as int));
                    lemma_remove_distinct(keys_of(old(self)@), index as int);
                }
                true
            },
            None => false,
        }
    }

    /// Removes the entry of `key` and hands back its value, if there was one.
    pub fn remove(&mut self, key: &String) -> (r: Option<V>)
        requires
            old(self).wf(),
        ensures
            final(self).wf(),
            final(self).cap() == old(self).cap(),
            !keys_of(old(self)@).contains(key@) ==> r is None && final(self)@ == old(self)@,
            keys_of(old(self)@).contains(key@) ==> r == Some(old(self)@[place_of(keys_of(old(self)@), key@)].1)
                && final(self)@ == old(self)@.remove(place_of(keys_of(old(self)@), key@)),
    {
        match self.position(key) {
            Some(index) => {
                let e = self.entries.remove(index);
                proof {
                    assert(keys_of(self.entries@) =~= keys_of(old(self)@).remove(index as int));
                    lemma_remove_distinct(keys_of(old(self)@), index as int);
                }
                Some(e.1)
            },
            None => None,
        }
    }

    /// The keys, most recent first.
    pub fn keys(&self) -> (r: Vec<&String>)
        ensures
            r@.len() == self@.len(),
            forall|k: int| 0 <= k < r@.len() ==> *r@[k] == self@[k].0,
    {
        let mut out: Vec<&String> = Vec::new();
        let mut i: usize = 0;
        while i < self.entries.len()
            invariant
                i <= self@.len(),
                out@.len() == i,
                forall|k: int| 0 <= k < i ==> *out@[k] == self@[k].0,
            decreases self@.len() - i,
        {
            out.push(&self.entries[i].0);
            i = i + 1;
        }
        out
    }

    /// The values, most recent first.
    pub fn values(&self) -> (r: Vec<&V>)
        ensures
            r@.len() == self@.len(),
            forall|k: int| 0 <= k < r@.len() ==> *r@[k] == self@[k].1,
    {
        let mut out: Vec<&V> = Vec::new();
        let mut i: usize = 0;
        while i < self.entries.len()
            invariant
                i <= self@.len(),
                out@.len() == i,
                forall|k: int| 0 <= k < i ==> *out@[k] == self@[k].1,
            decreases self@.len() - i,
        {
            out.push(&self.entries[i].1);
            i = i + 1;
        }
        out
    }

    /// The entries, most recent first.
    pub fn entries(&self) -> (r: Vec<(&String, &V)>)
        ensures
            r@.len() == self@.len(),
            forall|k: int| 0 <= k < r@.len() ==> *(#[trigger] r@[k]).0 == self@[k].0 && *r@[k].1 == self@[k].1,
    {
        let mut out: Vec<(&String, &V)> = Vec::new();
        let mut i: usize = 0;
        while i < self.entries.len()
            invariant
                i <= self@.len(),
                out@.len() == i,
                forall|k: int| 0 <= k < i ==> *(#[trigger] out@[k]).0 == self@[k].0 && *out@[k].1 == self@[k].1,
            decreases self@.len() - i,
        {
            out.push((&self.entries[i].0, &self.entries[i].1));
            i = i + 1;
        }
        out
    }

    /// Calls `callback` on every value with its key, most recent first.
    pub fn for_each<F: Fn(&V, &String)>(&self, callback: F)
        requires
            forall|v: &V, k: &String| #[trigger] call_requires(callback, (v, k)),
    {
        let mut i: usize = 0;
        while i < self.entries.len()
            invariant
                forall|v: &V, k: &String| #[trigger] call_requires(callback, (v, k)),
            decreases self@.len() - i,
        {
            callback(&self.entries[i].1, &self.entries[i].0);
            i = i + 1;
        }
    }

    /// A cache holding `items` set in turn, with the given capacity or, by
    /// default, as many entries as items; a capacity of 0 is an error.
    pub fn from_iter(items: Vec<(String, V)>, capacity: Option<usize>) -> (r: Result<Self, LruCacheError>)
        ensures
            ({
                let cap = match capacity {
                    Some(c) => c as nat,
                    None => items@.len(),
                };
                &&& cap == 0 <==> r is Err
                &&& r matches Err(e) ==> e.0@ == "mnemonist/lru-cache: capacity should be positive number."@
                &&& r matches Ok(c) ==> c.wf() && c.cap() == cap && c@ == set_all(
                    Seq::<(String, V)>::empty(),
                    cap,
                    items@,
                )
            }),
    {
        let cap = match capacity {
            Some(c) => c,
            None => items.len(),
        };
        let mut cache = match Self::new(cap) {
            Ok(c) => c,
            Err(e) => {
                return Err(e);
            },
        };
        let ghost all = items@;
        let mut rest = items;
        let mut tail: Vec<(String, V)> = Vec::new();
        while rest.len() > 0
            invariant
                rest@ + tail@.reverse() == all,
            decreases rest@.len(),
        {
            let v = rest.pop().unwrap();
            tail.push(v);
            proof {
                assert(rest@ + tail@.reverse() =~= all);
            }
        }
        proof {
            assert(tail@.reverse() =~= all);
        }
        while tail.len() > 0
            invariant
                cache.wf(),
                cache.cap() == cap,
                set_all(cache@, cap as nat, tail@.reverse()) == set_all(Seq::<(String, V)>::empty(), cap as nat, all),
            decreases tail@.len(),
        {
            let ghost t0 = tail@;
            let (k, v) = tail.pop().unwrap();
            proof {
                assert(t0.reverse()[0] == (k, v));
                assert(tail@.reverse() =~= t0.reverse().drop_first());
            }
            cache.set(k, v);
        }
        proof {
            assert(tail@.reverse() =~= Seq::<(String, V)>::empty());
        }
        Ok(cache)
    }

    /// Putting the new entry in front keeps the keys distinct and gives
    /// `after_set`.
    proof fn lemma_front_insert(&self, before: LruCache<V>, mid: Seq<(String, V)>, key: String, value: V)
        requires
            before.wf(),
            self.capacity == before.capacity,
            self@ == mid.insert(0, (key, value)),
            keys_of(mid).no_duplicates(),
            !keys_of(mid).contains(key@),
            mid.len() < self.capacity,
            keys_of(before@).contains(key@) ==> mid == before@.remove(place_of(keys_of(before@), key@)),
            !keys_of(before@).contains(key@) && before@.len() == before.cap() ==> mid == before@.drop_last(),
            !keys_of(before@).contains(key@) && before@.len() < before.cap() ==> mid == before@,
        ensures
            self.wf(),
            self@ == after_set(before@, before.cap(), key, value),
    {
        assert(mid.insert(0, (key, value)) =~= seq![(key, value)] + mid);
        assert(keys_of(self@) =~= keys_of(mid).insert(0, key@));
        let ks = keys_of(self@);
        assert forall|i: int, j: int| 0 <= i < ks.len() && 0 <= j < ks.len() && i != j implies ks[i] != ks[j] by {
            if i == 0 {
                assert(ks[j] == keys_of(mid)[j - 1]);
            } else if j == 0 {
                assert(ks[i] == keys_of(mid)[i - 1]);
            } else {
                assert(ks[i] == keys_of(mid)[i - 1]);
                assert(ks[j] == keys_of(mid)[j - 1]);
            }
        }
    }
}

} // verus!
