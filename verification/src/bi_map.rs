//! A one-to-one map between string keys and string values, readable both
//! ways.
use vstd::prelude::*;
use indexmap::IndexSet;
use crate::default_map::{key_index, lemma_key_index, lemma_push_distinct, lemma_remove_distinct};
use crate::ordered_keys::{
    key_order, keys_clear, keys_get_index, keys_index_of, keys_insert_full, keys_len, keys_new,
    keys_shift_remove_full,
};

verus! {

/// The pairs of one side: its keys, in insertion order, with their values.
pub open spec fn pairs(ks: Seq<Seq<char>>, vs: Seq<String>) -> Seq<(Seq<char>, Seq<char>)> {
    Seq::new(ks.len(), |i: int| (ks[i], vs[i]@))
}

/// The keys of `m`.
pub open spec fn firsts(m: Seq<(Seq<char>, Seq<char>)>) -> Seq<Seq<char>> {
    m.map_values(|p: (Seq<char>, Seq<char>)| p.0)
}

/// The value of `k` in `m`, if `k` is a key.
pub open spec fn lookup(m: Seq<(Seq<char>, Seq<char>)>, k: Seq<char>) -> Option<Seq<char>> {
    if firsts(m).contains(k) {
        Some(m[key_index(firsts(m), k)].1)
    } else {
        None
    }
}

/// `m` without the pair of `k`, if any.
pub open spec fn drop_key(m: Seq<(Seq<char>, Seq<char>)>, k: Seq<char>) -> Seq<(Seq<char>, Seq<char>)> {
    if firsts(m).contains(k) {
        m.remove(key_index(firsts(m), k))
    } else {
        m
    }
}

/// `m` with `k` mapped to `v`: in place for a key, or as a new last pair.
pub open spec fn put(m: Seq<(Seq<char>, Seq<char>)>, k: Seq<char>, v: Seq<char>) -> Seq<(Seq<char>, Seq<char>)> {
    if firsts(m).contains(k) {
        m.update(key_index(firsts(m), k), (k, v))
    } else {
        m.push((k, v))
    }
}

/// `r` maps every value of `l` back to its key.
pub open spec fn inverse_of(l: Seq<(Seq<char>, Seq<char>)>, r: Seq<(Seq<char>, Seq<char>)>) -> bool {
    forall|k: Seq<char>| #[trigger] lookup(l, k) is Some ==> lookup(r, lookup(l, k)->0) == Some(k)
}

/// What `put` and `drop_key` do to the keys, the lookups and the length.
pub proof fn lemma_put_drop(m: Seq<(Seq<char>, Seq<char>)>, k: Seq<char>, v: Seq<char>)
    requires
        firsts(m).no_duplicates(),
    ensures
        firsts(put(m, k, v)).no_duplicates(),
        firsts(drop_key(m, k)).no_duplicates(),
        forall|x: Seq<char>| #[trigger] lookup(put(m, k, v), x) == if x == k { Some(v) } else { lookup(m, x) },
        forall|x: Seq<char>| #[trigger] lookup(drop_key(m, k), x) == if x == k { None } else { lookup(m, x) },
        put(m, k, v).len() == if firsts(m).contains(k) { m.len() as int } else { m.len() + 1 as int },
        drop_key(m, k).len() == if firsts(m).contains(k) { m.len() - 1 as int } else { m.len() as int },
{
    let f = firsts(m);
    if f.contains(k) {
        let p = key_index(f, k);
        lemma_key_index(f, p);
        let pu = m.update(p, (k, v));
        assert(firsts(pu) =~= f);
        let dr = m.remove(p);
        assert(firsts(dr) =~= f.remove(p));
        lemma_remove_distinct(f, p);
        assert forall|x: Seq<char>| #[trigger] lookup(pu, x) == if x == k { Some(v) } else { lookup(m, x) } by {
            if f.contains(x) {
                let q = key_index(f, x);
                lemma_key_index(f, q);
            }
        }
        assert forall|x: Seq<char>| #[trigger] lookup(dr, x) == if x == k { None } else { lookup(m, x) } by {
            crate::multi_set::lemma_remove_keeps_index(f, p, x);
            if f.contains(x) {
                let q = key_index(f, x);
                lemma_key_index(f, q);
                if q != p {
                    let q1 = if q < p { q } else { q - 1 };
                    assert(dr[q1] == m[q]);
                }
            }
        }
    } else {
        let pu = m.push((k, v));
        assert(firsts(pu) =~= f.push(k));
        lemma_push_distinct(f, k);
        assert forall|x: Seq<char>| #[trigger] lookup(pu, x) == if x == k { Some(v) } else { lookup(m, x) } by {
            let fp = f.push(k);
            if x == k {
                lemma_key_index(fp, f.len() as int);
            } else if f.contains(x) {
                let q = key_index(f, x);
                lemma_key_index(f, q);
                assert(fp[q] == x);
                lemma_key_index(fp, q);
            } else {
                if fp.contains(x) {
                    let q = choose|q: int| 0 <= q < fp.len() && fp[q] == x;
                    assert(f[q] == x);
                }
            }
        }
    }
}

/// Both sides after mapping `k` to `v`, as `set` does it.
pub open spec fn set_both(
    l: Seq<(Seq<char>, Seq<char>)>,
    r: Seq<(Seq<char>, Seq<char>)>,
    k: Seq<char>,
    v: Seq<char>,
) -> (Seq<(Seq<char>, Seq<char>)>, Seq<(Seq<char>, Seq<char>)>) {
    if lookup(l, k) == Some(v) {
        (l, r)
    } else {
        (
            put(
                match lookup(r, v) {
                    Some(ck) => drop_key(l, ck),
                    None => l,
                },
                k,
                v,
            ),
            put(
                match lookup(l, k) {
                    Some(cv) => drop_key(r, cv),
                    None => r,
                },
                v,
                k,
            ),
        )
    }
}

/// Both sides after setting every pair of `items` in turn.
pub open spec fn set_all_both(
    l: Seq<(Seq<char>, Seq<char>)>,
    r: Seq<(Seq<char>, Seq<char>)>,
    items: Seq<(String, String)>,
) -> (Seq<(Seq<char>, Seq<char>)>, Seq<(Seq<char>, Seq<char>)>)
    decreases items.len(),
{
    if items.len() == 0 {
        (l, r)
    } else {
        let lr = set_both(l, r, items[0].0@, items[0].1@);
        set_all_both(lr.0, lr.1, items.drop_first())
    }
}

/// `lookup` finds exactly the keys.
pub proof fn lemma_lookup_len(m: Seq<(Seq<char>, Seq<char>)>, k: Seq<char>)
    ensures
        lookup(m, k) is Some <==> firsts(m).contains(k),
{
}

/// A map that also maps each value back to its key.
#[derive(Debug)]
pub struct BiMap {
    left_keys: IndexSet<String>,
    left_values: Vec<String>,
    right_keys: IndexSet<String>,
    right_values: Vec<String>,
}

impl BiMap {
    /// The pairs from keys to values, in insertion order.
    pub closed spec fn left(&self) -> Seq<(Seq<char>, Seq<char>)> {
        pairs(key_order(self.left_keys), self.left_values@)
    }

    /// The pairs from values to keys, in insertion order.
    pub closed spec fn right(&self) -> Seq<(Seq<char>, Seq<char>)> {
        pairs(key_order(self.right_keys), self.right_values@)
    }

    /// Each side has distinct keys, one value each, and undoes the other.
    pub closed spec fn wf(&self) -> bool {
        &&& key_order(self.left_keys).len() == self.left_values@.len()
        &&& key_order(self.right_keys).len() == self.right_values@.len()
        &&& key_order(self.left_keys).no_duplicates()
        &&& key_order(self.right_keys).no_duplicates()
        &&& key_order(self.left_keys).len() == key_order(self.right_keys).len()
        &&& inverse_of(self.left(), self.right())
        &&& inverse_of(self.right(), self.left())
    }

    /// The keys of a side are its key set.
    proof fn lemma_firsts(ks: Seq<Seq<char>>, vs: Seq<String>)
        requires
            ks.len() == vs.len(),
        ensures
            firsts(pairs(ks, vs)) == ks,
    {
        assert(firsts(pairs(ks, vs)) =~= ks);
    }

    /// Removes `k` from one side, handing back its value.
    fn side_remove(keys: &mut IndexSet<String>, values: &mut Vec<String>, k: &str) -> (r: Option<String>)
        requires
            key_order(*old(keys)).len() == old(values)@.len(),
            key_order(*old(keys)).no_duplicates(),
        ensures
            key_order(*final(keys)).len() == final(values)@.len(),
            key_order(*final(keys)).no_duplicates(),
            pairs(key_order(*final(keys)), final(values)@) == drop_key(pairs(key_order(*old(keys)), old(values)@), k@),
            r matches Some(v) ==> lookup(pairs(key_order(*old(keys)), old(values)@), k@) == Some(v@),
            r is None ==> lookup(pairs(key_order(*old(keys)), old(values)@), k@) is None,
    {
        let ghost m = pairs(key_order(*keys), values@);
        proof {
            Self::lemma_firsts(key_order(*keys), values@);
        }
        match keys_shift_remove_full(keys, k) {
            Some((i, _)) => {
                proof {
                    lemma_key_index(key_order(*old(keys)), i as int);
                    lemma_remove_distinct(key_order(*old(keys)), i as int);
                }
                let v = values.remove(i);
                proof {
                    assert(pairs(key_order(*keys), values@) =~= m.remove(i as int));
                }
                Some(v)
            },
            None => None,
        }
    }

    /// Maps `k` to `v` on one side: in place for a key, or as a new last
    /// pair.
    fn side_put(keys: &mut IndexSet<String>, values: &mut Vec<String>, k: String, v: String)
        requires
            key_order(*old(keys)).len() == old(values)@.len(),
            key_order(*old(keys)).no_duplicates(),
        ensures
            key_order(*final(keys)).len() == final(values)@.len(),
            key_order(*final(keys)).no_duplicates(),
            pairs(key_order(*final(keys)), final(values)@) == put(pairs(key_order(*old(keys)), old(values)@), k@, v@),
    {
        let ghost m = pairs(key_order(*keys), values@);
        let ghost kv = k@;
        let ghost vv = v@;
        proof {
            Self::lemma_firsts(key_order(*keys), values@);
        }
        let (i, added) = keys_insert_full(keys, k);
        if added {
            values.push(v);
            proof {
                lemma_push_distinct(key_order(*old(keys)), kv);
                assert(pairs(key_order(*keys), values@) =~= m.push((kv, vv)));
            }
        } else {
            proof {
                lemma_key_index(key_order(*old(keys)), i as int);
            }
            values.set(i, v);
            proof {
                assert(pairs(key_order(*keys), values@) =~= m.update(i as int, (kv, vv)));
            }
        }
    }

    /// Maps `key` to `value` both ways, first dropping the pairs that held
    /// either of them.
    pub fn set(&mut self, key: String, value: String)
        requires
            old(self).wf(),
        ensures
            final(self).wf(),
            lookup(old(self).left(), key@) == Some(value@) ==> final(self).left() == old(self).left()
                && final(self).right() == old(self).right(),
            lookup(old(self).left(), key@) != Some(value@) ==> final(self).left() == put(
                match lookup(old(self).right(), value@) {
                    Some(ck) => drop_key(old(self).left(), ck),
                    None => old(self).left(),
                },
                key@,
                value@,
            ) && final(self).right() == put(
                match lookup(old(self).left(), key@) {
                    Some(cv) => drop_key(old(self).right(), cv),
                    None => old(self).right(),
                },
                value@,
                key@,
            ),
    {
        let ghost l0 = self.left();
        let ghost r0 = self.right();
        proof {
            Self::lemma_firsts(key_order(self.left_keys), self.left_values@);
            Self::lemma_firsts(key_order(self.right_keys), self.right_values@);
            lemma_put_drop(l0, key@, value@);
            lemma_put_drop(r0, value@, key@);
        }
        match keys_index_of(&self.left_keys, key.as_str()) {
            Some(i) => {
                proof {
                    lemma_key_index(key_order(self.left_keys), i as int);
                }
                if self.left_values[i] == value {
                    return;
                }
                let cv = self.left_values[i].clone();
                let _ = Self::side_remove(&mut self.right_keys, &mut self.right_values, cv.as_str());
            },
            None => {},
        }
        let ghost r1 = self.right();
        proof {
            if lookup(l0, key@) is Some {
                lemma_put_drop(r0, lookup(l0, key@)->0, key@);
            }
            assert(lookup(r1, value@) == lookup(r0, value@));
        }
        match keys_index_of(&self.right_keys, value.as_str()) {
            Some(j) => {
                proof {
                    Self::lemma_firsts(key_order(self.right_keys), self.right_values@);
                    lemma_key_index(key_order(self.right_keys), j as int);
                    assert(lookup(r1, value@) == Some(self.right_values@[j as int]@));
                }
                if self.right_values[j] == key {
                    proof {
                        assert(lookup(r1, value@) == Some(key@));
                        if lookup(l0, key@) is Some {
                            lemma_put_drop(r0, lookup(l0, key@)->0, key@);
                        }
                        assert(lookup(r0, value@) == Some(key@));
                        assert(lookup(l0, key@) == Some(value@));
                    }
                    return;
                }
                let ck = self.right_values[j].clone();
                let _ = Self::side_remove(&mut self.left_keys, &mut self.left_values, ck.as_str());
            },
            None => {},
        }
        let ghost l1 = self.left();
        Self::side_put(&mut self.left_keys, &mut self.left_values, key.clone(), value.clone());
        Self::side_put(&mut self.right_keys, &mut self.right_values, value, key);
        proof {
            self.lemma_set_wf(l0, r0, l1, r1, key@, value@);
        }
    }

    /// The pairs left by `set` undo each other.
    proof fn lemma_set_wf(
        &self,
        l0: Seq<(Seq<char>, Seq<char>)>,
        r0: Seq<(Seq<char>, Seq<char>)>,
        l1: Seq<(Seq<char>, Seq<char>)>,
        r1: Seq<(Seq<char>, Seq<char>)>,
        key: Seq<char>,
        value: Seq<char>,
    )
        requires
            firsts(l0).no_duplicates(),
            firsts(r0).no_duplicates(),
            l0.len() == r0.len(),
            inverse_of(l0, r0),
            inverse_of(r0, l0),
            lookup(l0, key) != Some(value),
            r1 == match lookup(l0, key) {
                Some(cv) => drop_key(r0, cv),
                None => r0,
            },
            l1 == match lookup(r0, value) {
                Some(ck) => drop_key(l0, ck),
                None => l0,
            },
            self.left() == put(l1, key, value),
            self.right() == put(r1, value, key),
            key_order(self.left_keys).len() == self.left_values@.len(),
            key_order(self.right_keys).len() == self.right_values@.len(),
            key_order(self.left_keys).no_duplicates(),
            key_order(self.right_keys).no_duplicates(),
        ensures
            self.wf(),
    {
        Self::lemma_firsts(key_order(self.left_keys), self.left_values@);
        Self::lemma_firsts(key_order(self.right_keys), self.right_values@);
        if lookup(l0, key) is Some {
            lemma_put_drop(r0, lookup(l0, key)->0, value);
        }
        if lookup(r0, value) is Some {
            lemma_put_drop(l0, lookup(r0, value)->0, key);
        }
        lemma_put_drop(l1, key, value);
        lemma_put_drop(r1, value, key);
        let l2 = self.left();
        let r2 = self.right();
        assert forall|k: Seq<char>| #[trigger] lookup(l2, k) is Some implies lookup(r2, lookup(l2, k)->0) == Some(k) by {
            if k != key {
                let v = lookup(l0, k)->0;
                assert(lookup(r0, v) == Some(k));
            }
        }
        assert forall|v: Seq<char>| #[trigger] lookup(r2, v) is Some implies lookup(l2, lookup(r2, v)->0) == Some(v) by {
            if v != value {
                let k = lookup(r0, v)->0;
                assert(lookup(l0, k) == Some(v));
            }
        }
        lemma_lookup_len(l0, key);
        lemma_lookup_len(r0, value);
        lemma_lookup_len(l1, key);
        lemma_lookup_len(r1, value);
        assert(lookup(l1, key) == lookup(l0, key)) by {
            if lookup(r0, value) is Some {
                assert(lookup(r0, value)->0 != key);
            }
        }
        assert(lookup(r1, value) == lookup(r0, value)) by {
            if lookup(l0, key) is Some {
                assert(lookup(l0, key)->0 != value);
            }
        }
        assert(l2.len() == r2.len());
        assert(key_order(self.left_keys).len() == l2.len());
        assert(key_order(self.right_keys).len() == r2.len());
    }

    /// Removes the pair of `key` from both sides; returns whether there
    /// was one.
    pub fn delete(&mut self, key: &str) -> (r: bool)
        requires
            old(self).wf(),
        ensures
            final(self).wf(),
            r == (lookup(old(self).left(), key@) is Some),
            final(self).left() == drop_key(old(self).left(), key@),
            final(self).right() == match lookup(old(self).left(), key@) {
                Some(v) => drop_key(old(self).right(), v),
                None => old(self).right(),
            },
    {
        let ghost l0 = self.left();
        let ghost r0 = self.right();
        proof {
            Self::lemma_firsts(key_order(self.left_keys), self.left_values@);
            Self::lemma_firsts(key_order(self.right_keys), self.right_values@);
        }
        match Self::side_remove(&mut self.left_keys, &mut self.left_values, key) {
            Some(v) => {
                let _ = Self::side_remove(&mut self.right_keys, &mut self.right_values, v.as_str());
                proof {
                    Self::lemma_delete_wf(self.left(), self.right(), l0, r0, key@);
                    Self::lemma_firsts(key_order(self.left_keys), self.left_values@);
                    Self::lemma_firsts(key_order(self.right_keys), self.right_values@);
                }
                true
            },
            None => false,
        }
    }

    /// Removes the pair of `value` from both sides; returns whether there
    /// was one.
    pub fn inverse_delete(&mut self, value: &str) -> (r: bool)
        requires
            old(self).wf(),
        ensures
            final(self).wf(),
            r == (lookup(old(self).right(), value@) is Some),
            final(self).right() == drop_key(old(self).right(), value@),
            final(self).left() == match lookup(old(self).right(), value@) {
                Some(k) => drop_key(old(self).left(), k),
                None => old(self).left(),
            },
    {
        let ghost l0 = self.left();
        let ghost r0 = self.right();
        proof {
            Self::lemma_firsts(key_order(self.left_keys), self.left_values@);
            Self::lemma_firsts(key_order(self.right_keys), self.right_values@);
        }
        match Self::side_remove(&mut self.right_keys, &mut self.right_values, value) {
            Some(k) => {
                let _ = Self::side_remove(&mut self.left_keys, &mut self.left_values, k.as_str());
                proof {
                    Self::lemma_delete_wf(self.right(), self.left(), r0, l0, value@);
                    Self::lemma_firsts(key_order(self.left_keys), self.left_values@);
                    Self::lemma_firsts(key_order(self.right_keys), self.right_values@);
                }
                true
            },
            None => false,
        }
    }

    /// Dropping a pair from both sides keeps them inverse.
    proof fn lemma_delete_wf(
        l2: Seq<(Seq<char>, Seq<char>)>,
        r2: Seq<(Seq<char>, Seq<char>)>,
        l0: Seq<(Seq<char>, Seq<char>)>,
        r0: Seq<(Seq<char>, Seq<char>)>,
        key: Seq<char>,
    )
        requires
            firsts(l0).no_duplicates(),
            firsts(r0).no_duplicates(),
            l0.len() == r0.len(),
            inverse_of(l0, r0),
            inverse_of(r0, l0),
            lookup(l0, key) is Some,
            l2 == drop_key(l0, key),
            r2 == drop_key(r0, lookup(l0, key)->0),
        ensures
            inverse_of(l2, r2),
            inverse_of(r2, l2),
            l2.len() == r2.len(),
    {
        let cv = lookup(l0, key)->0;
        lemma_put_drop(l0, key, cv);
        lemma_put_drop(r0, cv, key);
        lemma_lookup_len(l0, key);
        lemma_lookup_len(r0, cv);
        assert(lookup(r0, cv) == Some(key));
        assert forall|k: Seq<char>| #[trigger] lookup(l2, k) is Some implies lookup(r2, lookup(l2, k)->0) == Some(k) by {
            let v = lookup(l0, k)->0;
            assert(lookup(r0, v) == Some(k));
        }
        assert forall|v: Seq<char>| #[trigger] lookup(r2, v) is Some implies lookup(l2, lookup(r2, v)->0) == Some(v) by {
            let k = lookup(r0, v)->0;
            assert(lookup(l0, k) == Some(v));
        }
    }

    /// The keys, in insertion order.
    pub fn keys(&self) -> (r: Vec<&String>)
        requires
            self.wf(),
        ensures
            r@.len() == self.left().len(),
            forall|k: int| 0 <= k < r@.len() ==> (#[trigger] r@[k])@ == self.left()[k].0,
    {
        Self::side_keys(&self.left_keys, &self.left_values)
    }

    /// The values, in the order of their keys.
    pub fn values(&self) -> (r: Vec<&String>)
        requires
            self.wf(),
        ensures
            r@.len() == self.left().len(),
            forall|k: int| 0 <= k < r@.len() ==> (#[trigger] r@[k])@ == self.left()[k].1,
    {
        Self::side_values(&self.left_keys, &self.left_values)
    }

    /// The values, in insertion order of the inverse side.
    pub fn inverse_keys(&self) -> (r: Vec<&String>)
        requires
            self.wf(),
        ensures
            r@.len() == self.right().len(),
            forall|k: int| 0 <= k < r@.len() ==> (#[trigger] r@[k])@ == self.right()[k].0,
    {
        Self::side_keys(&self.right_keys, &self.right_values)
    }

    /// The keys, in insertion order of the inverse side.
    pub fn inverse_values(&self) -> (r: Vec<&String>)
        requires
            self.wf(),
        ensures
            r@.len() == self.right().len(),
            forall|k: int| 0 <= k < r@.len() ==> (#[trigger] r@[k])@ == self.right()[k].1,
    {
        Self::side_values(&self.right_keys, &self.right_values)
    }

    /// The pairs from keys to values.
    pub fn entries(&self) -> (r: Vec<(&String, &String)>)
        requires
            self.wf(),
        ensures
            r@.len() == self.left().len(),
            forall|k: int| 0 <= k < r@.len() ==> ((#[trigger] r@[k]).0@, r@[k].1@) == self.left()[k],
    {
        Self::side_entries(&self.left_keys, &self.left_values)
    }

    /// The pairs from values to keys.
    pub fn inverse_entries(&self) -> (r: Vec<(&String, &String)>)
        requires
            self.wf(),
        ensures
            r@.len() == self.right().len(),
            forall|k: int| 0 <= k < r@.len() ==> ((#[trigger] r@[k]).0@, r@[k].1@) == self.right()[k],
    {
        Self::side_entries(&self.right_keys, &self.right_values)
    }

    /// The keys of one side.
    fn side_keys<'a>(keys: &'a IndexSet<String>, values: &'a Vec<String>) -> (r: Vec<&'a String>)
        requires
            key_order(*keys).len() == values@.len(),
        ensures
            r@.len() == values@.len(),
            forall|k: int| 0 <= k < r@.len() ==> (#[trigger] r@[k])@ == pairs(key_order(*keys), values@)[k].0,
    {
        let n = values.len();
        let mut out: Vec<&String> = Vec::new();
        let mut i: usize = 0;
        while i < n
            invariant
                n == values@.len(),
                key_order(*keys).len() == n,
                i <= n,
                out@.len() == i,
                forall|k: int| 0 <= k < i ==> (#[trigger] out@[k])@ == pairs(key_order(*keys), values@)[k].0,
            decreases n - i,
        {
            match keys_get_index(keys, i) {
                Some(k) => out.push(k),
                None => {},
            }
            i = i + 1;
        }
        out
    }

    /// The values of one side.
    fn side_values<'a>(keys: &'a IndexSet<String>, values: &'a Vec<String>) -> (r: Vec<&'a String>)
        requires
            key_order(*keys).len() == values@.len(),
        ensures
            r@.len() == values@.len(),
            forall|k: int| 0 <= k < r@.len() ==> (#[trigger] r@[k])@ == pairs(key_order(*keys), values@)[k].1,
    {
        let n = values.len();
        let mut out: Vec<&String> = Vec::new();
        let mut i: usize = 0;
        while i < n
            invariant
                n == values@.len(),
                key_order(*keys).len() == n,
                i <= n,
                out@.len() == i,
                forall|k: int| 0 <= k < i ==> (#[trigger] out@[k])@ == pairs(key_order(*keys), values@)[k].1,
            decreases n - i,
        {
            out.push(&values[i]);
            i = i + 1;
        }
        out
    }

    /// The pairs of one side.
    fn side_entries<'a>(keys: &'a IndexSet<String>, values: &'a Vec<String>) -> (r: Vec<(&'a String, &'a String)>)
        requires
            key_order(*keys).len() == values@.len(),
        ensures
            r@.len() == values@.len(),
            forall|k: int| 0 <= k < r@.len() ==> ((#[trigger] r@[k]).0@, r@[k].1@) == pairs(key_order(*keys), values@)[k],
    {
        let n = values.len();
        let mut out: Vec<(&String, &String)> = Vec::new();
        let mut i: usize = 0;
        while i < n
            invariant
                n == values@.len(),
                key_order(*keys).len() == n,
                i <= n,
                out@.len() == i,
                forall|k: int| 0 <= k < i ==> ((#[trigger] out@[k]).0@, out@[k].1@) == pairs(key_order(*keys), values@)[k],
            decreases n - i,
        {
            match keys_get_index(keys, i) {
                Some(k) => out.push((k, &values[i])),
                None => {},
            }
            i = i + 1;
        }
        out
    }

    /// A map of `items` set in turn.
    pub fn from_iter(items: Vec<(String, String)>) -> (r: Self)
        ensures
            r.wf(),
            (r.left(), r.right()) == set_all_both(
                Seq::<(Seq<char>, Seq<char>)>::empty(),
                Seq::<(Seq<char>, Seq<char>)>::empty(),
                items@,
            ),
    {
        let mut map = Self::new();
        let ghost all = items@;
        let mut rest = items;
        let mut tail: Vec<(String, String)> = Vec::new();
        while rest.len() > 0
            invariant
                rest@ + tail@.reverse() == all,
            decreases rest@.len(),
        {
            let v = rest.pop().unwrap();
            tail.push(v);
            proof {
                assert(rest@ + tail@.reverse() =~= all);
            }
        }
        proof {
            assert(tail@.reverse() =~= all);
        }
        while tail.len() > 0
            invariant
                map.wf(),
                set_all_both(map.left(), map.right(), tail@.reverse()) == set_all_both(
                    Seq::<(Seq<char>, Seq<char>)>::empty(),
                    Seq::<(Seq<char>, Seq<char>)>::empty(),
                    all,
                ),
            decreases tail@.len(),
        {
            let ghost t0 = tail@;
            let (k, v) = tail.pop().unwrap();
            proof {
                assert(t0.reverse()[0] == (k, v));
                assert(tail@.reverse() =~= t0.reverse().drop_first());
            }
            map.set(k, v);
        }
        proof {
            assert(tail@.reverse() =~= Seq::<(String, String)>::empty());
        }
        map
    }

    /// An empty map.
    pub fn new() -> (r: Self)
        ensures
            r.wf(),
            r.left() == Seq::<(Seq<char>, Seq<char>)>::empty(),
            r.right() == Seq::<(Seq<char>, Seq<char>)>::empty(),
    {
        let r = BiMap { left_keys: keys_new(), left_values: Vec::new(), right_keys: keys_new(), right_values: Vec::new() };
        proof {
            assert(r.left() =~= Seq::<(Seq<char>, Seq<char>)>::empty());
            assert(r.right() =~= Seq::<(Seq<char>, Seq<char>)>::empty());
        }
        r
    }

    /// Removes every pair.
    pub fn clear(&mut self)
        ensures
            final(self).wf(),
            final(self).left() == Seq::<(Seq<char>, Seq<char>)>::empty(),
            final(self).right() == Seq::<(Seq<char>, Seq<char>)>::empty(),
    {
        keys_clear(&mut self.left_keys);
        self.left_values.clear();
        keys_clear(&mut self.right_keys);
        self.right_values.clear();
        proof {
            assert(self.left() =~= Seq::<(Seq<char>, Seq<char>)>::empty());
            assert(self.right() =~= Seq::<(Seq<char>, Seq<char>)>::empty());
        }
    }

    /// The number of pairs.
    pub fn size(&self) -> (r: usize)
        ensures
            r == self.left().len(),
    {
        keys_len(&self.left_keys)
    }

    /// Whether `key` is a key.
    pub fn has(&self, key: &str) -> (r: bool)
        requires
            self.wf(),
        ensures
            r == firsts(self.left()).contains(key@),
    {
        proof {
            Self::lemma_firsts(key_order(self.left_keys), self.left_values@);
        }
        keys_index_of(&self.left_keys, key).is_some()
    }

    /// Whether `value` is a value.
    pub fn inverse_has(&self, value: &str) -> (r: bool)
        requires
            self.wf(),
        ensures
            r == firsts(self.right()).contains(value@),
    {
        proof {
            Self::lemma_firsts(key_order(self.right_keys), self.right_values@);
        }
        keys_index_of(&self.right_keys, value).is_some()
    }

    /// The value of `key`, if it is a key.
    pub fn get(&self, key: &str) -> (r: Option<&String>)
        requires
            self.wf(),
        ensures
            lookup(self.left(), key@) matches Some(v) ==> (r matches Some(s) && s@ == v),
            lookup(self.left(), key@) is None ==> r is None,
    {
        proof {
            Self::lemma_firsts(key_order(self.left_keys), self.left_values@);
        }
        match keys_index_of(&self.left_keys, key) {
            Some(i) => {
                proof {
                    lemma_key_index(key_order(self.left_keys), i as int);
                }
                Some(&self.left_values[i])
            },
            None => None,
        }
    }

    /// The key of `value`, if it is a value.
    pub fn inverse_get(&self, value: &str) -> (r: Option<&String>)
        requires
            self.wf(),
        ensures
            lookup(self.right(), value@) matches Some(k) ==> (r matches Some(s) && s@ == k),
            lookup(self.right(), value@) is None ==> r is None,
    {
        proof {
            Self::lemma_firsts(key_order(self.right_keys), self.right_values@);
        }
        match keys_index_of(&self.right_keys, value) {
            Some(i) => {
                proof {
                    lemma_key_index(key_order(self.right_keys), i as int);
                }
                Some(&self.right_values[i])
            },
            None => None,
        }
    }
}

} // verus!
