//! A multiset of string keys, each with its multiplicity, in insertion
//! order.
use vstd::prelude::*;
use indexmap::IndexSet;
use crate::heap::{heap_pop, heap_push, heap_replace, is_heap, first_of, rank, HeapKey};
use vstd::multiset::Multiset;
use crate::default_map::{key_index, lemma_key_index, lemma_push_distinct, lemma_remove_distinct};
use crate::ordered_keys::{
    key_order, keys_clear, keys_get_index, keys_index_of, keys_insert_full, keys_len, keys_new,
    keys_shift_remove_full,
};

verus! {

/// The sum of `s`.
pub open spec fn sum(s: Seq<usize>) -> int
    decreases s.len(),
{
    if s.len() == 0 {
        0
    } else {
        sum(s.drop_last()) + s.last()
    }
}

/// The sum of two sequences laid end to end.
pub proof fn lemma_sum_concat(a: Seq<usize>, b: Seq<usize>)
    ensures
        sum(a + b) == sum(a) + sum(b),
    decreases b.len(),
{
    if b.len() == 0 {
        assert(a + b =~= a);
    } else {
        assert((a + b).drop_last() =~= a + b.drop_last());
        lemma_sum_concat(a, b.drop_last());
    }
}

/// Replacing one entry changes the sum by the difference.
pub proof fn lemma_sum_update(s: Seq<usize>, i: int, v: usize)
    requires
        0 <= i < s.len(),
    ensures
        sum(s.update(i, v)) == sum(s) - s[i] + v,
{
    let a = s.take(i);
    let b = s.skip(i + 1);
    assert(s =~= a + seq![s[i]] + b);
    assert(s.update(i, v) =~= a + seq![v] + b);
    lemma_sum_concat(a + seq![s[i]], b);
    lemma_sum_concat(a, seq![s[i]]);
    lemma_sum_concat(a + seq![v], b);
    lemma_sum_concat(a, seq![v]);
    lemma_sum_single(v);
    lemma_sum_single(s[i]);
}

/// The sum of one entry is that entry.
pub proof fn lemma_sum_single(v: usize)
    ensures
        sum(seq![v]) == v,
{
    assert(seq![v].drop_last() =~= Seq::<usize>::empty());
    assert(sum(Seq::<usize>::empty()) == 0);
}

/// Removing one entry lowers the sum by it.
pub proof fn lemma_sum_remove(s: Seq<usize>, i: int)
    requires
        0 <= i < s.len(),
    ensures
        sum(s.remove(i)) == sum(s) - s[i],
{
    let a = s.take(i);
    let b = s.skip(i + 1);
    assert(s =~= a + seq![s[i]] + b);
    assert(s.remove(i) =~= a + b);
    lemma_sum_concat(a + seq![s[i]], b);
    lemma_sum_concat(a, seq![s[i]]);
    lemma_sum_concat(a, b);
    lemma_sum_single(s[i]);
}

/// Every entry is at most the sum.
pub proof fn lemma_sum_bound(s: Seq<usize>, i: int)
    requires
        0 <= i < s.len(),
    ensures
        s[i] <= sum(s),
        sum(s) >= 0,
    decreases s.len(),
{
    lemma_sum_nonneg(s.drop_last());
    if i < s.len() - 1 {
        lemma_sum_bound(s.drop_last(), i);
    }
}

/// A sum of naturals is not negative.
pub proof fn lemma_sum_nonneg(s: Seq<usize>)
    ensures
        sum(s) >= 0,
    decreases s.len(),
{
    if s.len() > 0 {
        lemma_sum_nonneg(s.drop_last());
    }
}

/// The multiplicity of `k`: its count when it is a key, else 0.
pub open spec fn count_of(ks: Seq<Seq<char>>, cs: Seq<usize>, k: Seq<char>) -> int {
    if ks.contains(k) {
        cs[key_index(ks, k)] as int
    } else {
        0
    }
}

/// Every key repeated as many times as its count, in key order.
pub open spec fn repeated(ks: Seq<Seq<char>>, cs: Seq<usize>) -> Seq<Seq<char>> {
    Seq::new(ks.len(), |i: int| Seq::new(cs[i] as nat, |j: int| ks[i])).flatten()
}

/// An entry handled by `top`: the position of a key and its multiplicity,
/// ordered by the multiplicity alone.
#[derive(Debug, Clone, Copy)]
pub struct TopEntry {
    pub pos: usize,
    pub count: usize,
}

impl HeapKey for TopEntry {
    /// The multiplicity, or its negation when the larger come first.
    open spec fn key_rank(&self, max: bool) -> int {
        if max {
            -(self.count as int)
        } else {
            self.count as int
        }
    }

    fn key_precedes(&self, other: &Self, max: bool) -> (r: bool) {
        if max {
            self.count > other.count
        } else {
            self.count < other.count
        }
    }
}

/// `r` holds, most frequent first, `n` of the keys (all of them when there
/// are fewer) with their multiplicities, and no key left out is more
/// frequent than a key kept.
pub open spec fn top_of(ks: Seq<Seq<char>>, cs: Seq<usize>, n: nat, r: Seq<(Seq<char>, usize)>) -> bool {
    &&& r.len() == if n < ks.len() { n } else { ks.len() }
    &&& forall|j: int| 0 <= j < r.len() ==> ks.contains(#[trigger] r[j].0) && r[j].1 == count_of(ks, cs, r[j].0)
    &&& forall|a: int, b: int| 0 <= a < b < r.len() ==> r[a].0 != r[b].0 && r[a].1 >= r[b].1
    &&& forall|k: Seq<char>, j: int|
        #![trigger ks.contains(k), r[j]]
        0 <= j < r.len() && ks.contains(k) && !r.map_values(|p: (Seq<char>, usize)| p.0).contains(k) ==> count_of(
            ks,
            cs,
            k,
        ) <= r[j].1
}

/// Two entries equal at different places count twice.
pub proof fn lemma_count_twice<A>(s: Seq<A>, a: int, b: int)
    requires
        0 <= a < b < s.len(),
        s[a] == s[b],
    ensures
        s.to_multiset().count(s[a]) >= 2,
{
    broadcast use vstd::seq_lib::group_to_multiset_ensures;

    let t = s.remove(b);
    assert(t[a] == s[a]);
    assert(t.contains(s[a]));
    assert(s.contains(s[b]));
    vstd::seq_lib::to_multiset_contains(s, s[b]);
    vstd::seq_lib::to_multiset_contains(t, s[a]);
    assert(t.to_multiset() == s.to_multiset().remove(s[b]));
}

/// The heap of `top` after the first `i` keys: at most `n` entries, each a
/// position below `i` with its count, no position twice, every position
/// left out no more frequent than any kept, and none left out while there
/// is room.
pub open spec fn top_heap_ok(cs: Seq<usize>, n: int, i: int, m: Multiset<TopEntry>) -> bool {
    &&& forall|e: TopEntry| #[trigger] m.count(e) > 0 ==> e.pos < i && e.count == cs[e.pos as int]
    &&& forall|e: TopEntry| #[trigger] m.count(e) <= 1
    &&& forall|q: int, e: TopEntry|
        #![trigger m.count(TopEntry { pos: q as usize, count: cs[q] }), m.count(e)]
        0 <= q < i && m.count(TopEntry { pos: q as usize, count: cs[q] }) == 0 && m.count(e) > 0 ==> cs[q] <= e.count
    &&& i <= n ==> forall|q: int| 0 <= q < i ==> #[trigger] m.count(TopEntry { pos: q as usize, count: cs[q] }) > 0
}

/// A multiset of string keys with their multiplicities.
#[derive(Debug)]
pub struct MultiSet {
    keys: IndexSet<String>,
    counts: Vec<usize>,
    size: usize,
}

impl MultiSet {
    /// The distinct keys, in insertion order.
    pub closed spec fn keys_seq(&self) -> Seq<Seq<char>> {
        key_order(self.keys)
    }

    /// The multiplicities, in the order of their keys.
    pub closed spec fn counts_seq(&self) -> Seq<usize> {
        self.counts@
    }

    /// One positive count per distinct key, and the size is their sum.
    pub closed spec fn wf(&self) -> bool {
        &&& key_order(self.keys).len() == self.counts@.len()
        &&& key_order(self.keys).no_duplicates()
        &&& forall|i: int| 0 <= i < self.counts@.len() ==> #[trigger] self.counts@[i] > 0
        &&& self.size == sum(self.counts@)
    }

    /// An empty multiset.
    pub fn new() -> (r: Self)
        ensures
            r.wf(),
            r.keys_seq() == Seq::<Seq<char>>::empty(),
            r.counts_seq() == Seq::<usize>::empty(),
    {
        MultiSet { keys: keys_new(), counts: Vec::new(), size: 0 }
    }

    /// Removes every key.
    pub fn clear(&mut self)
        ensures
            final(self).wf(),
            final(self).keys_seq() == Seq::<Seq<char>>::empty(),
            final(self).counts_seq() == Seq::<usize>::empty(),
    {
        keys_clear(&mut self.keys);
        self.counts.clear();
        self.size = 0;
    }

    /// The total multiplicity.
    pub fn size(&self) -> (r: usize)
        requires
            self.wf(),
        ensures
            r == sum(self.counts_seq()),
    {
        self.size
    }

    /// The number of distinct keys.
    pub fn dimension(&self) -> (r: usize)
        ensures
            r == self.keys_seq().len(),
    {
        keys_len(&self.keys)
    }

    /// Whether `item` is a key.
    pub fn has(&self, item: &str) -> (r: bool)
        ensures
            r == self.keys_seq().contains(item@),
    {
        keys_index_of(&self.keys, item).is_some()
    }

    /// The multiplicity of `item`.
    pub fn multiplicity(&self, item: &str) -> (r: usize)
        requires
            self.wf(),
        ensures
            r == count_of(self.keys_seq(), self.counts_seq(), item@),
    {
        match keys_index_of(&self.keys, item) {
            Some(i) => {
                proof {
                    lemma_key_index(self.keys_seq(), i as int);
                }
                self.counts[i]
            },
            None => 0,
        }
    }

    /// Adds `count` more of `item` (a positive count).
    fn add_count(&mut self, item: String, count: usize)
        requires
            old(self).wf(),
            count > 0,
            sum(old(self).counts_seq()) + count <= usize::MAX,
        ensures
            final(self).wf(),
            sum(final(self).counts_seq()) == sum(old(self).counts_seq()) + count,
            old(self).keys_seq().contains(item@) ==> final(self).keys_seq() == old(self).keys_seq()
                && final(self).counts_seq() == old(self).counts_seq().update(
                key_index(old(self).keys_seq(), item@),
                (old(self).counts_seq()[key_index(old(self).keys_seq(), item@)] + count) as usize,
            ),
            !old(self).keys_seq().contains(item@) ==> final(self).keys_seq() == old(self).keys_seq().push(item@)
                && final(self).counts_seq() == old(self).counts_seq().push(count),
    {
        let ghost k = item@;
        let (i, added) = keys_insert_full(&mut self.keys, item);
        if added {
            self.counts.push(count);
            proof {
                lemma_push_distinct(old(self).keys_seq(), k);
                assert(self.counts@.drop_last() =~= old(self).counts@);
            }
        } else {
            proof {
                lemma_key_index(old(self).keys_seq(), i as int);
                lemma_sum_bound(self.counts@, i as int);
                lemma_sum_update(self.counts@, i as int, (self.counts@[i as int] + count) as usize);
            }
            let c = self.counts[i];
            self.counts.set(i, c + count);
        }
        self.size = self.size + count;
    }

    /// Takes `count` of `item` away (a positive count), dropping the key
    /// when none is left.
    fn remove_count(&mut self, item: &str, count: usize)
        requires
            old(self).wf(),
            count > 0,
        ensures
            final(self).wf(),
            !old(self).keys_seq().contains(item@) ==> final(self).keys_seq() == old(self).keys_seq()
                && final(self).counts_seq() == old(self).counts_seq(),
            old(self).keys_seq().contains(item@) && count >= old(self).counts_seq()[key_index(old(self).keys_seq(), item@)]
                ==> final(self).keys_seq() == old(self).keys_seq().remove(key_index(old(self).keys_seq(), item@))
                && final(self).counts_seq() == old(self).counts_seq().remove(key_index(old(self).keys_seq(), item@)),
            old(self).keys_seq().contains(item@) && count < old(self).counts_seq()[key_index(old(self).keys_seq(), item@)]
                ==> final(self).keys_seq() == old(self).keys_seq() && final(self).counts_seq()
                == old(self).counts_seq().update(
                key_index(old(self).keys_seq(), item@),
                (old(self).counts_seq()[key_index(old(self).keys_seq(), item@)] - count) as usize,
            ),
    {
        let i = match keys_index_of(&self.keys, item) {
            Some(i) => i,
            None => {
                return;
            },
        };
        proof {
            lemma_key_index(self.keys_seq(), i as int);
            lemma_sum_bound(self.counts@, i as int);
        }
        let current = self.counts[i];
        if count >= current {
            self.size = self.size - current;
            let _ = keys_shift_remove_full(&mut self.keys, item);
            self.counts.remove(i);
            proof {
                lemma_remove_distinct(old(self).keys_seq(), i as int);
                lemma_sum_remove(old(self).counts@, i as int);
            }
        } else {
            proof {
                lemma_sum_update(self.counts@, i as int, (current - count) as usize);
            }
            self.counts.set(i, current - count);
            self.size = self.size - count;
        }
    }

    /// Adds `count` of `item`; a negative count takes `-count` away and 0
    /// does nothing.
    pub fn add(&mut self, item: String, count: isize)
        requires
            old(self).wf(),
            count > isize::MIN,
            count > 0 ==> sum(old(self).counts_seq()) + count <= usize::MAX,
        ensures
            final(self).wf(),
            count == 0 ==> final(self).keys_seq() == old(self).keys_seq() && final(self).counts_seq()
                == old(self).counts_seq(),
            forall|k: Seq<char>| #[trigger] count_of(final(self).keys_seq(), final(self).counts_seq(), k) == if k
                != item@ {
                count_of(old(self).keys_seq(), old(self).counts_seq(), k)
            } else if count_of(old(self).keys_seq(), old(self).counts_seq(), k) + count <= 0 {
                0
            } else {
                count_of(old(self).keys_seq(), old(self).counts_seq(), k) + count
            },
    {
        if count == 0 {
            return;
        }
        if count < 0 {
            let n = (-count) as usize;
            self.remove_count(&item, n);
            proof {
                self.lemma_counts_after_remove(*old(self), item@, n as int);
            }
            return;
        }
        let n = count as usize;
        self.add_count(item, n);
        proof {
            self.lemma_counts_after_add(*old(self), item@, n as int);
        }
    }

    /// How `remove_count` moves the multiplicities.
    proof fn lemma_counts_after_remove(&self, before: MultiSet, item: Seq<char>, n: int)
        requires
            before.wf(),
            self.wf(),
            n > 0,
            !before.keys_seq().contains(item) ==> self.keys_seq() == before.keys_seq() && self.counts_seq()
                == before.counts_seq(),
            before.keys_seq().contains(item) && n >= before.counts_seq()[key_index(before.keys_seq(), item)]
                ==> self.keys_seq() == before.keys_seq().remove(key_index(before.keys_seq(), item))
                && self.counts_seq() == before.counts_seq().remove(key_index(before.keys_seq(), item)),
            before.keys_seq().contains(item) && n < before.counts_seq()[key_index(before.keys_seq(), item)]
                ==> self.keys_seq() == before.keys_seq() && self.counts_seq() == before.counts_seq().update(
                key_index(before.keys_seq(), item),
                (before.counts_seq()[key_index(before.keys_seq(), item)] - n) as usize,
            ),
        ensures
            forall|k: Seq<char>| #[trigger] count_of(self.keys_seq(), self.counts_seq(), k) == if k != item {
                count_of(before.keys_seq(), before.counts_seq(), k)
            } else if count_of(before.keys_seq(), before.counts_seq(), k) - n <= 0 {
                0
            } else {
                count_of(before.keys_seq(), before.counts_seq(), k) - n
            },
    {
        let ks = before.keys_seq();
        assert forall|k: Seq<char>| #[trigger] count_of(self.keys_seq(), self.counts_seq(), k) == if k != item {
            count_of(ks, before.counts_seq(), k)
        } else if count_of(ks, before.counts_seq(), k) - n <= 0 {
            0
        } else {
            count_of(ks, before.counts_seq(), k) - n
        } by {
            if ks.contains(item) {
                let p = key_index(ks, item);
                if n >= before.counts_seq()[p] {
                    lemma_remove_keeps_index(ks, p, k);
                } else {
                    if ks.contains(k) {
                        lemma_key_index(ks, key_index(ks, k));
                    }
                }
            }
        }
    }

    /// How `add_count` moves the multiplicities.
    proof fn lemma_counts_after_add(&self, before: MultiSet, item: Seq<char>, n: int)
        requires
            before.wf(),
            self.wf(),
            n > 0,
            before.keys_seq().contains(item) ==> self.keys_seq() == before.keys_seq() && self.counts_seq()
                == before.counts_seq().update(
                key_index(before.keys_seq(), item),
                (before.counts_seq()[key_index(before.keys_seq(), item)] + n) as usize,
            ),
            !before.keys_seq().contains(item) ==> self.keys_seq() == before.keys_seq().push(item)
                && self.counts_seq() == before.counts_seq().push(n as usize),
            n <= usize::MAX,
            sum(before.counts_seq()) + n <= usize::MAX,
        ensures
            forall|k: Seq<char>| #[trigger] count_of(self.keys_seq(), self.counts_seq(), k) == if k != item {
                count_of(before.keys_seq(), before.counts_seq(), k)
            } else if count_of(before.keys_seq(), before.counts_seq(), k) + n <= 0 {
                0
            } else {
                count_of(before.keys_seq(), before.counts_seq(), k) + n
            },
    {
        let ks = before.keys_seq();
        assert forall|k: Seq<char>| #[trigger] count_of(self.keys_seq(), self.counts_seq(), k) == if k != item {
            count_of(ks, before.counts_seq(), k)
        } else if count_of(ks, before.counts_seq(), k) + n <= 0 {
            0
        } else {
            count_of(ks, before.counts_seq(), k) + n
        } by {
            if ks.contains(k) {
                let q = choose|q: int| 0 <= q < ks.len() && ks[q] == k;
                lemma_key_index(ks, q);
            }
            if ks.contains(item) {
                let q = choose|q: int| 0 <= q < ks.len() && ks[q] == item;
                lemma_key_index(ks, q);
                lemma_sum_bound(before.counts_seq(), q);
            }
            if !ks.contains(item) {
                let s = ks.push(item);
                assert(s[ks.len() as int] == item);
                if k == item {
                    lemma_key_index(s, ks.len() as int);
                } else if ks.contains(k) {
                    let p = key_index(ks, k);
                    assert(s[p] == k);
                    lemma_key_index(s, p);
                } else {
                    assert(!s.contains(k));
                }
            }
        }
    }

    /// Takes `count` of `item` away, dropping the key when none is left; a
    /// negative count adds `-count` and 0 does nothing.
    pub fn remove(&mut self, item: &str, count: isize)
        requires
            old(self).wf(),
            count > isize::MIN,
            count < 0 ==> sum(old(self).counts_seq()) - count <= usize::MAX,
        ensures
            final(self).wf(),
            count == 0 ==> final(self).keys_seq() == old(self).keys_seq() && final(self).counts_seq()
                == old(self).counts_seq(),
            forall|k: Seq<char>| #[trigger] count_of(final(self).keys_seq(), final(self).counts_seq(), k) == if k
                != item@ {
                count_of(old(self).keys_seq(), old(self).counts_seq(), k)
            } else if count_of(old(self).keys_seq(), old(self).counts_seq(), k) - count <= 0 {
                0
            } else {
                count_of(old(self).keys_seq(), old(self).counts_seq(), k) - count
            },
    {
        if count == 0 {
            return;
        }
        if count < 0 {
            let n = (-count) as usize;
            let owned = item.to_owned();
            self.add_count(owned, n);
            proof {
                self.lemma_counts_after_add(*old(self), item@, n as int);
            }
            return;
        }
        let n = count as usize;
        self.remove_count(item, n);
        proof {
            self.lemma_counts_after_remove(*old(self), item@, n as int);
        }
    }

    /// Sets the multiplicity of `item` to `count`: in place for a key, as a
    /// new last key otherwise; a count of 0 or less deletes it.
    pub fn set(&mut self, item: String, count: isize)
        requires
            old(self).wf(),
            count > 0 ==> sum(old(self).counts_seq()) + count <= usize::MAX,
        ensures
            final(self).wf(),
            count <= 0 ==> final(self).keys_seq() == if old(self).keys_seq().contains(item@) {
                old(self).keys_seq().remove(key_index(old(self).keys_seq(), item@))
            } else {
                old(self).keys_seq()
            },
            count > 0 && old(self).keys_seq().contains(item@) ==> final(self).keys_seq() == old(self).keys_seq()
                && final(self).counts_seq() == old(self).counts_seq().update(
                key_index(old(self).keys_seq(), item@),
                count as usize,
            ),
            count > 0 && !old(self).keys_seq().contains(item@) ==> final(self).keys_seq()
                == old(self).keys_seq().push(item@) && final(self).counts_seq() == old(self).counts_seq().push(
                count as usize,
            ),
    {
        if count <= 0 {
            self.delete(&item);
            return;
        }
        let n = count as usize;
        let ghost k = item@;
        let (i, added) = keys_insert_full(&mut self.keys, item);
        if added {
            self.counts.push(n);
            self.size = self.size + n;
            proof {
                lemma_push_distinct(old(self).keys_seq(), k);
                assert(self.counts@.drop_last() =~= old(self).counts@);
            }
        } else {
            proof {
                lemma_key_index(old(self).keys_seq(), i as int);
                lemma_sum_bound(self.counts@, i as int);
                lemma_sum_update(self.counts@, i as int, n);
            }
            let previous = self.counts[i];
            self.counts.set(i, n);
            self.size = self.size - previous + n;
        }
    }

    /// Removes `item` whatever its multiplicity; returns whether it was a
    /// key.
    pub fn delete(&mut self, item: &str) -> (r: bool)
        requires
            old(self).wf(),
        ensures
            final(self).wf(),
            r == old(self).keys_seq().contains(item@),
            !r ==> final(self).keys_seq() == old(self).keys_seq() && final(self).counts_seq() == old(self).counts_seq(),
            r ==> final(self).keys_seq() == old(self).keys_seq().remove(key_index(old(self).keys_seq(), item@))
                && final(self).counts_seq() == old(self).counts_seq().remove(key_index(old(self).keys_seq(), item@)),
    {
        match keys_shift_remove_full(&mut self.keys, item) {
            Some((i, _)) => {
                proof {
                    lemma_key_index(old(self).keys_seq(), i as int);
                    lemma_remove_distinct(old(self).keys_seq(), i as int);
                    lemma_sum_bound(old(self).counts@, i as int);
                    lemma_sum_remove(old(self).counts@, i as int);
                }
                let count = self.counts.remove(i);
                self.size = self.size - count;
                true
            },
            None => false,
        }
    }

    /// Moves the whole multiplicity of `from` onto `to`, which comes last
    /// when it was not a key; nothing happens when `from` is not a key.
    pub fn edit(&mut self, from: &str, to: String)
        requires
            old(self).wf(),
        ensures
            final(self).wf(),
            !old(self).keys_seq().contains(from@) ==> final(self).keys_seq() == old(self).keys_seq()
                && final(self).counts_seq() == old(self).counts_seq(),
            old(self).keys_seq().contains(from@) ==> forall|k: Seq<char>| #[trigger] count_of(final(self).keys_seq(), final(self).counts_seq(), k)
                == if k == to@ {
                count_of(old(self).keys_seq(), old(self).counts_seq(), from@) + if to@ == from@ {
                    0
                } else {
                    count_of(old(self).keys_seq(), old(self).counts_seq(), to@)
                }
            } else if k == from@ {
                0
            } else {
                count_of(old(self).keys_seq(), old(self).counts_seq(), k)
            },
    {
        let amount = self.multiplicity(from);
        if amount == 0 {
            proof {
                if old(self).keys_seq().contains(from@) {
                    lemma_key_index(old(self).keys_seq(), key_index(old(self).keys_seq(), from@));
                }
            }
            return;
        }
        let ghost mid0 = *self;
        let _ = self.delete(from);
        let ghost mid = *self;
        proof {
            lemma_sum_remove(old(self).counts@, key_index(old(self).keys_seq(), from@));
            self.lemma_counts_after_remove(mid0, from@, amount as int);
        }
        self.add_count(to, amount);
        proof {
            self.lemma_counts_after_add(mid, to@, amount as int);
        }
    }

    /// The keys, in insertion order.
    pub fn keys(&self) -> (r: Vec<&String>)
        requires
            self.wf(),
        ensures
            r@.len() == self.keys_seq().len(),
            forall|k: int| 0 <= k < r@.len() ==> (#[trigger] r@[k])@ == self.keys_seq()[k],
    {
        let n = keys_len(&self.keys);
        let mut out: Vec<&String> = Vec::new();
        let mut i: usize = 0;
        while i < n
            invariant
                n == self.keys_seq().len(),
                i <= n,
                out@.len() == i,
                forall|k: int| 0 <= k < i ==> (#[trigger] out@[k])@ == self.keys_seq()[k],
            decreases n - i,
        {
            match keys_get_index(&self.keys, i) {
                Some(k) => out.push(k),
                None => {},
            }
            i = i + 1;
        }
        out
    }

    /// The keys with their multiplicities, in insertion order.
    pub fn multiplicities(&self) -> (r: Vec<(&String, usize)>)
        requires
            self.wf(),
        ensures
            r@.len() == self.keys_seq().len(),
            forall|k: int| 0 <= k < r@.len() ==> (#[trigger] r@[k]).0@ == self.keys_seq()[k] && r@[k].1 == self.counts_seq()[k],
    {
        let n = keys_len(&self.keys);
        let mut out: Vec<(&String, usize)> = Vec::new();
        let mut i: usize = 0;
        while i < n
            invariant
                self.wf(),
                n == self.keys_seq().len(),
                i <= n,
                out@.len() == i,
                forall|k: int| 0 <= k < i ==> (#[trigger] out@[k]).0@ == self.keys_seq()[k] && out@[k].1 == self.counts_seq()[k],
            decreases n - i,
        {
            match keys_get_index(&self.keys, i) {
                Some(k) => out.push((k, self.counts[i])),
                None => {},
            }
            i = i + 1;
        }
        out
    }

    /// Every key as many times as its multiplicity, in key order.
    pub fn values(&self) -> (r: Vec<String>)
        requires
            self.wf(),
        ensures
            r@.map_values(|s: String| s@) == repeated(self.keys_seq(), self.counts_seq()),
    {
        let ghost t = Seq::new(self.keys_seq().len(), |i: int| Seq::new(self.counts@[i] as nat, |j: int| self.keys_seq()[i]));
        let n = keys_len(&self.keys);
        let mut out: Vec<String> = Vec::new();
        let mut i: usize = 0;
        while i < n
            invariant
                self.wf(),
                n == self.keys_seq().len(),
                t == Seq::new(self.keys_seq().len(), |i: int| Seq::new(self.counts@[i] as nat, |j: int| self.keys_seq()[i])),
                i <= n,
                out@.map_values(|s: String| s@) == t.take(i as int).flatten(),
            decreases n - i,
        {
            proof {
                crate::multi_array::lemma_flatten_take_succ(t, i as int);
            }
            match keys_get_index(&self.keys, i) {
                Some(key) => {
                    let c = self.counts[i];
                    let mut j: usize = 0;
                    while j < c
                        invariant
                            key@ == self.keys_seq()[i as int],
                            c == self.counts@[i as int],
                            i < n,
                            n == self.keys_seq().len(),
                            t == Seq::new(self.keys_seq().len(), |i: int| Seq::new(self.counts@[i] as nat, |j: int| self.keys_seq()[i])),
                            t.take(i + 1).flatten() == t.take(i as int).flatten() + t[i as int],
                            j <= c,
                            out@.map_values(|s: String| s@) == t.take(i as int).flatten() + t[i as int].take(j as int),
                        decreases c - j,
                    {
                        let ghost before = out@;
                        out.push(key.clone());
                        j = j + 1;
                        proof {
                            assert(out@ == before.push(*key));
                            assert(out@.map_values(|s: String| s@) =~= before.map_values(|s: String| s@).push(key@));
                            assert(t[i as int].take(j as int) =~= t[i as int].take(j - 1).push(key@));
                        }
                    }
                    proof {
                        assert(t[i as int].take(c as int) =~= t[i as int]);
                    }
                },
                None => {},
            }
            i = i + 1;
        }
        proof {
            assert(t.take(n as int) =~= t);
        }
        out
    }

    /// Whether every key of `a` has at least its multiplicity in `b`,
    /// answered at once as no when `a` has more distinct keys.
    pub fn is_subset(a: &Self, b: &Self) -> (r: bool)
        requires
            a.wf(),
            b.wf(),
        ensures
            r == (a.keys_seq().len() <= b.keys_seq().len() && forall|i: int|
                0 <= i < a.keys_seq().len() ==> count_of(b.keys_seq(), b.counts_seq(), #[trigger] a.keys_seq()[i])
                    >= a.counts_seq()[i]),
    {
        if a.dimension() > b.dimension() {
            return false;
        }
        let n = keys_len(&a.keys);
        let mut i: usize = 0;
        while i < n
            invariant
                a.wf(),
                b.wf(),
                n == a.keys_seq().len(),
                i <= n,
                forall|k: int| 0 <= k < i ==> count_of(b.keys_seq(), b.counts_seq(), #[trigger] a.keys_seq()[k])
                    >= a.counts_seq()[k],
            decreases n - i,
        {
            match keys_get_index(&a.keys, i) {
                Some(key) => {
                    if b.multiplicity(key.as_str()) < a.counts[i] {
                        return false;
                    }
                },
                None => {},
            }
            i = i + 1;
        }
        true
    }

    /// Whether `a` holds every key of `b` with at least its multiplicity.
    pub fn is_superset(a: &Self, b: &Self) -> (r: bool)
        requires
            a.wf(),
            b.wf(),
        ensures
            r == (b.keys_seq().len() <= a.keys_seq().len() && forall|i: int|
                0 <= i < b.keys_seq().len() ==> count_of(a.keys_seq(), a.counts_seq(), #[trigger] b.keys_seq()[i])
                    >= b.counts_seq()[i]),
    {
        Self::is_subset(b, a)
    }

    /// The `n` most frequent keys with their multiplicities, most frequent
    /// first; `n` of 0 is an error.
    pub fn top(&self, n: usize) -> (r: Result<Vec<(String, usize)>, String>)
        requires
            self.wf(),
        ensures
            n == 0 <==> r is Err,
            r matches Err(e) ==> e@ == "mnemonist/multi-set.top: n must be a number > 0."@,
            r matches Ok(v) ==> top_of(
                self.keys_seq(),
                self.counts_seq(),
                n as nat,
                v@.map_values(|p: (String, usize)| (p.0@, p.1)),
            ),
    {
        broadcast use vstd::seq_lib::group_to_multiset_ensures;
        broadcast use vstd::multiset::group_multiset_properties;

        if n == 0 {
            return Err("mnemonist/multi-set.top: n must be a number > 0.".to_string());
        }
        let dim = keys_len(&self.keys);
        let ghost cs = self.counts@;
        let mut heap: Vec<TopEntry> = Vec::new();
        let mut i: usize = 0;
        proof {
            assert(heap@.to_multiset() =~= Multiset::empty());
        }
        while i < dim
            invariant
                self.wf(),
                cs == self.counts@,
                dim == cs.len(),
                n > 0,
                i <= dim,
                is_heap(false, heap@),
                heap@.len() == if i < n { i as int } else { n as int },
                top_heap_ok(cs, n as int, i as int, heap@.to_multiset()),
            decreases dim - i,
        {
            let item = TopEntry { pos: i, count: self.counts[i] };
            let ghost m0 = heap@.to_multiset();
            if heap.len() < n {
                heap_push(false, &mut heap, item);
                proof {
                    let m1 = heap@.to_multiset();
                    assert(m1 == m0.insert(item));
                    assert(m0.count(item) == 0);
                    assert forall|q: int| 0 <= q < i + 1 implies #[trigger] m1.count(TopEntry { pos: q as usize, count: cs[q] }) > 0 by {
                        if q < i {
                            assert(m0.count(TopEntry { pos: q as usize, count: cs[q] }) > 0);
                        }
                    }
                    assert forall|e: TopEntry| #[trigger] m1.count(e) <= 1 by {
                        if e != item {
                            assert(m0.count(e) <= 1);
                        }
                    }
                    assert forall|q: int, e: TopEntry|
                        #![trigger m1.count(TopEntry { pos: q as usize, count: cs[q] }), m1.count(e)]
                        0 <= q < i + 1 && m1.count(TopEntry { pos: q as usize, count: cs[q] }) == 0 && m1.count(e) > 0 implies cs[q] <= e.count by {
                        if q < i {
                            assert(m0.count(TopEntry { pos: q as usize, count: cs[q] }) > 0);
                        }
                    }
                }
            } else {
                proof {
                    crate::heap::lemma_heap_root_first_of_all(false, heap@);
                    assert(heap@.contains(heap@[0]));
                    vstd::seq_lib::to_multiset_contains(heap@, heap@[0]);
                    assert(m0.count(heap@[0]) > 0);
                }
                if item.count > heap[0].count {
                    let ghost root = heap@[0];
                    let _ = heap_replace(false, &mut heap, item);
                    proof {
                        let m1 = heap@.to_multiset();
                        assert(m1 == m0.remove(root).insert(item));
                        assert(m0.count(item) == 0);
                        assert forall|e: TopEntry| #[trigger] m1.count(e) <= 1 by {
                            if e != item {
                                assert(m0.count(e) <= 1);
                            }
                        }
                        assert forall|e: TopEntry| #[trigger] m1.count(e) > 0 implies e.pos < i + 1 && e.count == cs[e.pos as int] by {
                            if e != item {
                                assert(m0.count(e) > 0);
                            }
                        }
                        assert forall|q: int, e: TopEntry|
                            #![trigger m1.count(TopEntry { pos: q as usize, count: cs[q] }), m1.count(e)]
                            0 <= q < i + 1 && m1.count(TopEntry { pos: q as usize, count: cs[q] }) == 0 && m1.count(e) > 0 implies cs[q] <= e.count by {
                            assert(rank(false, root) <= rank(false, item));
                            if e != item {
                                assert(m0.count(e) > 0);
                                assert(m0.contains(e));
                                assert(rank(false, root) <= rank(false, e));
                            }
                            if (TopEntry { pos: q as usize, count: cs[q] }) != root && q < i {
                                assert(m0.count(TopEntry { pos: q as usize, count: cs[q] }) == 0);
                                assert(m0.count(root) > 0);
                            }
                        }
                    }
                } else {
                    proof {
                        assert forall|q: int, e: TopEntry|
                            #![trigger m0.count(TopEntry { pos: q as usize, count: cs[q] }), m0.count(e)]
                            0 <= q < i + 1 && m0.count(TopEntry { pos: q as usize, count: cs[q] }) == 0 && m0.count(e) > 0 implies cs[q] <= e.count by {
                            if q == i {
                                assert(m0.contains(e));
                                assert(rank(false, heap@[0]) <= rank(false, e));
                            }
                        }
                    }
                }
            }
            i = i + 1;
        }
        let total = heap.len();
        let ghost mall = heap@.to_multiset();
        let mut out: Vec<TopEntry> = Vec::new();
        let mut k: usize = 0;
        while k < total
            invariant
                k <= total,
                out@.len() == k,
                is_heap(false, heap@),
                heap@.len() == total,
                heap@.to_multiset() == mall,
            decreases total - k,
        {
            out.push(TopEntry { pos: 0, count: 0 });
            k = k + 1;
        }
        let mut size = total;
        proof {
            assert(out@.subrange(total as int, total as int).to_multiset() =~= Multiset::empty());
        }
        while size > 0
            invariant
                size <= total,
                out@.len() == total,
                heap@.len() == size,
                is_heap(false, heap@),
                out@.subrange(size as int, total as int).to_multiset().add(heap@.to_multiset()) == mall,
                forall|a: int, b: int| size <= a < b < total ==> out@[a].count >= out@[b].count,
                forall|a: int, e: TopEntry|
                    #![trigger out@[a], heap@.to_multiset().count(e)]
                    size <= a < total && heap@.to_multiset().count(e) > 0 ==> e.count >= out@[a].count,
            decreases size,
        {
            let ghost h0 = heap@.to_multiset();
            let ghost o0 = out@;
            size = size - 1;
            match heap_pop(false, &mut heap) {
                Some(x) => {
                    out.set(size, x);
                    proof {
                        assert(out@.subrange(size as int, total as int) =~= o0.subrange(size + 1, total as int).insert(0, x));
                        vstd::seq_lib::to_multiset_insert(o0.subrange(size + 1, total as int), 0, x);
                        assert(out@.subrange(size as int, total as int).to_multiset().add(heap@.to_multiset()) =~= mall);
                        assert forall|a: int, b: int| size <= a < b < total implies out@[a].count >= out@[b].count by {
                            if a == size {
                                assert(o0[b] == out@[b]);
                                assert(h0.count(x) > 0);
                            }
                        }
                        assert forall|a: int, e: TopEntry|
                            #![trigger out@[a], heap@.to_multiset().count(e)]
                            size <= a < total && heap@.to_multiset().count(e) > 0 implies e.count >= out@[a].count by {
                            assert(h0.count(e) > 0);
                            assert(h0.contains(e));
                            if a == size {
                                assert(rank(false, x) <= rank(false, e));
                            }
                        }
                    }
                },
                None => {},
            }
        }
        proof {
            assert(out@.subrange(0, total as int) =~= out@);
            assert(heap@.to_multiset().len() == 0);
            assert(heap@.to_multiset() =~= Multiset::empty());
            assert(out@.to_multiset() =~= mall);
        }
        let mut result: Vec<(String, usize)> = Vec::new();
        let mut j: usize = 0;
        while j < total
            invariant
                self.wf(),
                cs == self.counts@,
                dim == cs.len(),
                j <= total,
                out@.len() == total,
                out@.to_multiset() == mall,
                top_heap_ok(cs, n as int, dim as int, mall),
                result@.len() == j,
                forall|a: int| 0 <= a < j ==> (#[trigger] result@[a]).0@ == self.keys_seq()[out@[a].pos as int]
                    && result@[a].1 == out@[a].count,
            decreases total - j,
        {
            let e = out[j];
            proof {
                assert(out@[j as int] == e);
                assert(out@.contains(e));
                vstd::seq_lib::to_multiset_contains(out@, e);
                assert(mall.count(e) > 0);
            }
            match keys_get_index(&self.keys, e.pos) {
                Some(key) => {
                    result.push((key.clone(), e.count));
                },
                None => {},
            }
            j = j + 1;
        }
        proof {
            self.lemma_top_result(n as int, out@, mall, result@.map_values(|p: (String, usize)| (p.0@, p.1)));
        }
        Ok(result)
    }

    /// The entries taken off the heap of `top`, turned into keys, meet
    /// `top_of`.
    proof fn lemma_top_result(&self, n: int, out: Seq<TopEntry>, mall: Multiset<TopEntry>, r: Seq<(Seq<char>, usize)>)
        requires
            self.wf(),
            self.counts@.len() <= usize::MAX,
            n > 0,
            out.to_multiset() == mall,
            top_heap_ok(self.counts@, n, self.counts@.len() as int, mall),
            out.len() == if self.counts@.len() < n { self.counts@.len() as int } else { n },
            forall|a: int, b: int| 0 <= a < b < out.len() ==> out[a].count >= out[b].count,
            r.len() == out.len(),
            forall|a: int| 0 <= a < out.len() ==> (#[trigger] r[a]).0 == self.keys_seq()[out[a].pos as int] && r[a].1 == out[a].count,
        ensures
            top_of(self.keys_seq(), self.counts_seq(), n as nat, r),
    {
        broadcast use vstd::seq_lib::group_to_multiset_ensures;

        let ks = self.keys_seq();
        let cs = self.counts@;
        assert forall|a: int| 0 <= a < out.len() implies #[trigger] mall.count(out[a]) > 0 by {
            assert(out.contains(out[a]));
        }
        assert forall|j: int| 0 <= j < r.len() implies ks.contains(#[trigger] r[j].0) && r[j].1 == count_of(ks, cs, r[j].0) by {
            assert(mall.count(out[j]) > 0);
            let p = out[j].pos as int;
            assert(ks[p] == r[j].0);
            lemma_key_index(ks, p);
        }
        assert forall|a: int, b: int| 0 <= a < b < r.len() implies r[a].0 != r[b].0 && r[a].1 >= r[b].1 by {
            assert(mall.count(out[a]) > 0);
            assert(mall.count(out[b]) > 0);
            if r[a].0 == r[b].0 {
                let pa = out[a].pos as int;
                let pb = out[b].pos as int;
                if pa != pb {
                    assert(ks[pa] != ks[pb]);
                }
                assert(out[a] == out[b]);
                lemma_count_twice(out, a, b);
                assert(mall.count(out[a]) <= 1);
            }
        }
        assert forall|k: Seq<char>, j: int|
            #![trigger ks.contains(k), r[j]]
            0 <= j < r.len() && ks.contains(k) && !r.map_values(|p: (Seq<char>, usize)| p.0).contains(k) implies count_of(
                ks,
                cs,
                k,
            ) <= r[j].1 by {
            let q = key_index(ks, k);
            assert(ks[q] == k);
            lemma_key_index(ks, q);
            let e = TopEntry { pos: q as usize, count: cs[q] };
            if mall.count(e) > 0 {
                assert(out.to_multiset().count(e) > 0);
                vstd::seq_lib::to_multiset_contains(out, e);
                assert(out.contains(e));
                let i = choose|i: int| 0 <= i < out.len() && out[i] == e;
                assert(out[i].pos == q as usize);
                assert(0 <= q < ks.len());
                assert(ks.len() == self.counts@.len());
                assert((q as usize) as int == q);
                assert(r[i].0 == ks[out[i].pos as int]);
                assert(r[i].0 == k);
                assert(r.map_values(|p: (Seq<char>, usize)| p.0)[i] == k);
            }
            assert(mall.count(out[j]) > 0);
        }
    }

    /// A multiset of `items`, each counted once per occurrence, keys in
    /// order of first occurrence.
    pub fn from_iter(items: Vec<String>) -> (r: Self)
        ensures
            r.wf(),
            forall|k: Seq<char>| #[trigger] count_of(r.keys_seq(), r.counts_seq(), k) == occurrences(
                items@.map_values(|s: String| s@),
                k,
            ),
    {
        let ghost all = items@.map_values(|s: String| s@);
        let mut set = Self::new();
        let n = items.len();
        let mut i: usize = 0;
        proof {
            assert(all.take(0) =~= Seq::<Seq<char>>::empty());
        }
        while i < n
            invariant
                set.wf(),
                n == items@.len(),
                all == items@.map_values(|s: String| s@),
                i <= n,
                sum(set.counts_seq()) == i,
                forall|k: Seq<char>| #[trigger] count_of(set.keys_seq(), set.counts_seq(), k) == occurrences(
                    all.take(i as int),
                    k,
                ),
            decreases n - i,
        {
            let ghost before = set;
            let v = items[i].clone();
            set.add_count(v, 1);
            proof {
                set.lemma_counts_after_add(before, all[i as int], 1);
                assert(all.take(i + 1).drop_last() =~= all.take(i as int));
                assert forall|k: Seq<char>| #[trigger] count_of(set.keys_seq(), set.counts_seq(), k) == occurrences(
                    all.take(i + 1),
                    k,
                ) by {
                    lemma_occurrences_nonneg(all.take(i as int), k);
                }
            }
            i = i + 1;
        }
        proof {
            assert(all.take(n as int) =~= all);
        }
        set
    }
}

/// The number of times `k` occurs in `s`.
pub open spec fn occurrences(s: Seq<Seq<char>>, k: Seq<char>) -> int
    decreases s.len(),
{
    if s.len() == 0 {
        0
    } else {
        occurrences(s.drop_last(), k) + if s.last() == k {
            1int
        } else {
            0
        }
    }
}

/// Occurrences are never negative.
pub proof fn lemma_occurrences_nonneg(s: Seq<Seq<char>>, k: Seq<char>)
    ensures
        occurrences(s, k) >= 0,
    decreases s.len(),
{
    if s.len() > 0 {
        lemma_occurrences_nonneg(s.drop_last(), k);
    }
}

/// Removing the entry at `p` moves the later keys down by one and keeps
/// the multiplicities of the others.
pub proof fn lemma_remove_keeps_index(ks: Seq<Seq<char>>, p: int, k: Seq<char>)
    requires
        ks.no_duplicates(),
        0 <= p < ks.len(),
    ensures
        ks.remove(p).contains(k) <==> ks.contains(k) && k != ks[p],
        ks.remove(p).contains(k) ==> key_index(ks.remove(p), k) == if key_index(ks, k) < p {
            key_index(ks, k)
        } else {
            key_index(ks, k) - 1
        },
{
    let s = ks.remove(p);
    lemma_remove_distinct(ks, p);
    if ks.contains(k) && k != ks[p] {
        let q = key_index(ks, k);
        lemma_key_index(ks, q);
        let q1 = if q < p { q } else { q - 1 };
        assert(s[q1] == k);
        lemma_key_index(s, q1);
    }
    if s.contains(k) {
        let q1 = key_index(s, k);
        let q = if q1 < p { q1 } else { q1 + 1 };
        assert(ks[q] == k);
        assert(q != p);
    }
}

} // verus!
