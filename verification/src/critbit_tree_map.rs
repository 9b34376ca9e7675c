//! A map from string keys to values, kept in lexicographic order of the
//! keys.
use vstd::prelude::*;
use crate::text::{chars_eq, chars_less, chars_of, lemma_seq_less_total, lemma_seq_less_transitive, seq_less};

verus! {

/// The keys of `entries`.
pub open spec fn entry_keys<V>(entries: Seq<(String, V)>) -> Seq<Seq<char>> {
    entries.map_values(|e: (String, V)| e.0@)
}

/// The keys are in strictly increasing lexicographic order.
pub open spec fn strictly_sorted(ks: Seq<Seq<char>>) -> bool {
    forall|i: int, j: int| 0 <= i < j < ks.len() ==> seq_less(ks[i], ks[j])
}

/// The number of keys of `ks` before `k` in lexicographic order.
pub open spec fn count_less(ks: Seq<Seq<char>>, k: Seq<char>) -> int
    decreases ks.len(),
{
    if ks.len() == 0 {
        0
    } else {
        count_less(ks.drop_last(), k) + if seq_less(ks.last(), k) {
            1int
        } else {
            0
        }
    }
}

/// Whether `p` is a prefix of `s`.
pub open spec fn has_prefix(s: Seq<char>, p: Seq<char>) -> bool {
    p.len() <= s.len() && s.take(p.len() as int) == p
}

/// A map from string keys to values in lexicographic order of the keys.
#[derive(Debug, Clone)]
pub struct CritBitTreeMap<V> {
    entries: Vec<(String, V)>,
}

impl<V> View for CritBitTreeMap<V> {
    type V = Seq<(String, V)>;

    /// The entries, in lexicographic order of their keys.
    closed spec fn view(&self) -> Seq<(String, V)> {
        self.entries@
    }
}

impl<V> CritBitTreeMap<V> {
    /// The keys are strictly increasing.
    pub closed spec fn wf(&self) -> bool {
        strictly_sorted(entry_keys(self.entries@))
    }

    /// An empty map.
    pub fn new() -> (r: Self)
        ensures
            r.wf(),
            r@ == Seq::<(String, V)>::empty(),
    {
        CritBitTreeMap { entries: Vec::new() }
    }

    /// The number of keys.
    pub fn size(&self) -> (r: usize)
        ensures
            r == self@.len(),
    {
        self.entries.len()
    }

    /// Removes every key.
    pub fn clear(&mut self)
        ensures
            final(self).wf(),
            final(self)@ == Seq::<(String, V)>::empty(),
    {
        self.entries.clear();
    }

    /// The place of the first key not before `key`, and whether it is `key`.
    fn seek(&self, key: &str) -> (r: (usize, bool))
        requires
            self.wf(),
        ensures
            r.0 <= self@.len(),
            r.0 == count_less(entry_keys(self@), key@),
            forall|i: int| 0 <= i < r.0 ==> seq_less(#[trigger] entry_keys(self@)[i], key@),
            forall|i: int| r.0 <= i < self@.len() ==> !seq_less(#[trigger] entry_keys(self@)[i], key@),
            r.1 == (r.0 < self@.len() && entry_keys(self@)[r.0 as int] == key@),
            r.1 == entry_keys(self@).contains(key@),
    {
        let ghost ks = entry_keys(self@);
        let kc = chars_of(key);
        let n = self.entries.len();
        let mut pos: usize = 0;
        proof {
            assert(ks.take(0) =~= Seq::<Seq<char>>::empty());
        }
        while pos < n && chars_less(&chars_of(self.entries[pos].0.as_str()), &kc)
            invariant
                ks == entry_keys(self@),
                n == ks.len(),
                kc@ == key@,
                pos <= n,
                forall|i: int| 0 <= i < pos ==> seq_less(#[trigger] ks[i], key@),
                count_less(ks.take(pos as int), key@) == pos,
            decreases n - pos,
        {
            proof {
                assert(ks.take(pos + 1).drop_last() =~= ks.take(pos as int));
            }
            pos = pos + 1;
        }
        let found = pos < n && chars_eq(&chars_of(self.entries[pos].0.as_str()), &kc);
        proof {
            assert forall|i: int| pos <= i < n implies !seq_less(#[trigger] ks[i], key@) by {
                if i > pos {
                    assert(seq_less(ks[pos as int], ks[i]));
                    if seq_less(ks[i], key@) {
                        lemma_seq_less_transitive(ks[pos as int], ks[i], key@);
                    }
                }
            }
            lemma_count_less_tail(ks, key@, pos as int, pos as int);
            lemma_seq_less_total(key@, key@);
            if ks.contains(key@) {
                let t = choose|t: int| 0 <= t < ks.len() && ks[t] == key@;
                if t > pos {
                    assert(seq_less(ks[pos as int], ks[t]));
                }
            }
        }
        (pos, found)
    }

    /// The value of `key`, if it is a key.
    pub fn get(&self, key: &str) -> (r: Option<&V>)
        requires
            self.wf(),
        ensures
            !entry_keys(self@).contains(key@) ==> r is None,
            entry_keys(self@).contains(key@) ==> r == Some(&self@[count_less(entry_keys(self@), key@)].1),
    {
        let (pos, found) = self.seek(key);
        if found {
            Some(&self.entries[pos].1)
        } else {
            None
        }
    }

    /// Whether `key` is a key.
    pub fn has(&self, key: &str) -> (r: bool)
        requires
            self.wf(),
        ensures
            r == entry_keys(self@).contains(key@),
    {
        self.seek(key).1
    }

    /// Maps `key` to `value`, in place for a key or at its place in order.
    pub fn set(&mut self, key: String, value: V)
        requires
            old(self).wf(),
        ensures
            final(self).wf(),
            entry_keys(old(self)@).contains(key@) ==> final(self)@ == old(self)@.update(
                count_less(entry_keys(old(self)@), key@),
                (key, value),
            ),
            !entry_keys(old(self)@).contains(key@) ==> final(self)@ == old(self)@.insert(
                count_less(entry_keys(old(self)@), key@),
                (key, value),
            ),
    {
        let (pos, found) = self.seek(key.as_str());
        let ghost ks = entry_keys(self@);
        let ghost k = key@;
        if found {
            self.entries.set(pos, (key, value));
            proof {
                assert(entry_keys(self@) =~= ks);
            }
        } else {
            self.entries.insert(pos, (key, value));
            proof {
                assert(entry_keys(self@) =~= ks.insert(pos as int, k));
                let ns = entry_keys(self@);
                assert forall|i: int, j: int| 0 <= i < j < ns.len() implies seq_less(ns[i], ns[j]) by {
                    if j < pos {
                    } else if j == pos {
                    } else if i > pos {
                        assert(ns[i] == ks[i - 1] && ns[j] == ks[j - 1]);
                    } else if i == pos {
                        assert(ns[j] == ks[j - 1]);
                        lemma_seq_less_total(ks[j - 1], k);
                        assert(ks[j - 1] != k);
                    } else {
                        assert(ns[j] == ks[j - 1]);
                        if j - 1 > i {
                        }
                    }
                }
            }
        }
    }

    /// Removes `key`; returns whether it was a key.
    pub fn delete(&mut self, key: &str) -> (r: bool)
        requires
            old(self).wf(),
        ensures
            final(self).wf(),
            r == entry_keys(old(self)@).contains(key@),
            !r ==> final(self)@ == old(self)@,
            r ==> final(self)@ == old(self)@.remove(count_less(entry_keys(old(self)@), key@)),
    {
        let (pos, found) = self.seek(key);
        if !found {
            return false;
        }
        let ghost ks = entry_keys(self@);
        self.entries.remove(pos);
        proof {
            assert(entry_keys(self@) =~= ks.remove(pos as int));
            let ns = entry_keys(self@);
            assert forall|i: int, j: int| 0 <= i < j < ns.len() implies seq_less(ns[i], ns[j]) by {
                let i1 = if i < pos { i } else { i + 1 };
                let j1 = if j < pos { j } else { j + 1 };
                assert(ns[i] == ks[i1] && ns[j] == ks[j1]);
            }
        }
        true
    }

    /// The keys, in order.
    pub fn keys(&self) -> (r: Vec<&String>)
        ensures
            r@.len() == self@.len(),
            forall|k: int| 0 <= k < r@.len() ==> *r@[k] == self@[k].0,
    {
        let mut out: Vec<&String> = Vec::new();
        let mut i: usize = 0;
        while i < self.entries.len()
            invariant
                i <= self@.len(),
                out@.len() == i,
                forall|k: int| 0 <= k < i ==> *out@[k] == self@[k].0,
            decreases self@.len() - i,
        {
            out.push(&self.entries[i].0);
            i = i + 1;
        }
        out
    }

    /// The values, in the order of their keys.
    pub fn values(&self) -> (r: Vec<&V>)
        ensures
            r@.len() == self@.len(),
            forall|k: int| 0 <= k < r@.len() ==> *r@[k] == self@[k].1,
    {
        let mut out: Vec<&V> = Vec::new();
        let mut i: usize = 0;
        while i < self.entries.len()
            invariant
                i <= self@.len(),
                out@.len() == i,
                forall|k: int| 0 <= k < i ==> *out@[k] == self@[k].1,
            decreases self@.len() - i,
        {
            out.push(&self.entries[i].1);
            i = i + 1;
        }
        out
    }

    /// The entries, in order.
    pub fn entries(&self) -> (r: Vec<(&String, &V)>)
        ensures
            r@.len() == self@.len(),
            forall|k: int| 0 <= k < r@.len() ==> *(#[trigger] r@[k]).0 == self@[k].0 && *r@[k].1 == self@[k].1,
    {
        let mut out: Vec<(&String, &V)> = Vec::new();
        let mut i: usize = 0;
        while i < self.entries.len()
            invariant
                i <= self@.len(),
                out@.len() == i,
                forall|k: int| 0 <= k < i ==> *(#[trigger] out@[k]).0 == self@[k].0 && *out@[k].1 == self@[k].1,
            decreases self@.len() - i,
        {
            out.push((&self.entries[i].0, &self.entries[i].1));
            i = i + 1;
        }
        out
    }

    /// The keys from the first one not before `prefix`, in order, as long
    /// as they start with `prefix`.
    pub fn keys_with_prefix(&self, prefix: &str) -> (r: Vec<&String>)
        requires
            self.wf(),
        ensures
            ({
                let ks = entry_keys(self@);
                let start = count_less(ks, prefix@);
                &&& start + r@.len() <= ks.len()
                &&& forall|k: int| 0 <= k < r@.len() ==> *r@[k] == self@[start + k].0
                &&& forall|k: int| 0 <= k < r@.len() ==> has_prefix(#[trigger] ks[start + k], prefix@)
                &&& start + r@.len() < ks.len() ==> !has_prefix(ks[start + r@.len()], prefix@)
            }),
    {
        let ghost ks = entry_keys(self@);
        let (start, _) = self.seek(prefix);
        let pc = chars_of(prefix);
        let mut out: Vec<&String> = Vec::new();
        let mut i = start;
        while i < self.entries.len()
            invariant
                ks == entry_keys(self@),
                pc@ == prefix@,
                start == count_less(ks, prefix@),
                start <= i <= ks.len(),
                out@.len() == i - start,
                forall|k: int| 0 <= k < out@.len() ==> *out@[k] == self@[start + k].0,
                forall|k: int| 0 <= k < out@.len() ==> has_prefix(#[trigger] ks[start + k], prefix@),
            decreases ks.len() - i,
        {
            let kc = chars_of(self.entries[i].0.as_str());
            if !starts_with(&kc, &pc) {
                proof {
                    assert(ks[start + out@.len()] == ks[i as int]);
                }
                return out;
            }
            out.push(&self.entries[i].0);
            proof {
                assert(ks[start + (out@.len() - 1)] == ks[i as int]);
            }
            i = i + 1;
        }
        out
    }
}

/// Whether `p` is a prefix of `s`.
pub(crate) fn starts_with(s: &Vec<char>, p: &Vec<char>) -> (r: bool)
    ensures
        r == has_prefix(s@, p@),
{
    if p.len() > s.len() {
        return false;
    }
    let mut i: usize = 0;
    while i < p.len()
        invariant
            p@.len() <= s@.len(),
            i <= p@.len(),
            forall|k: int| 0 <= k < i ==> s@[k] == p@[k],
        decreases p@.len() - i,
    {
        if s[i] != p[i] {
            proof {
                assert(s@.take(p@.len() as int)[i as int] != p@[i as int]);
            }
            return false;
        }
        i = i + 1;
    }
    proof {
        assert(s@.take(p@.len() as int) =~= p@);
    }
    true
}

/// Past the keys before `k`, none is before it, so the count stops there.
proof fn lemma_count_less_tail(ks: Seq<Seq<char>>, k: Seq<char>, j: int, c: int)
    requires
        0 <= j <= ks.len(),
        count_less(ks.take(j), k) == c,
        forall|i: int| j <= i < ks.len() ==> !seq_less(#[trigger] ks[i], k),
    ensures
        count_less(ks, k) == c,
    decreases ks.len() - j,
{
    if j < ks.len() {
        assert(ks.take(j + 1).drop_last() =~= ks.take(j));
        assert(ks.take(j + 1).last() == ks[j]);
        lemma_count_less_tail(ks, k, j + 1, c);
    } else {
        assert(ks.take(j) =~= ks);
    }
}


} // verus!
