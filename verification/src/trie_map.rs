//! A map from string keys to values, in insertion order, that also keeps
//! its keys in a trie of characters to answer prefix queries.
use vstd::prelude::*;
use indexmap::IndexSet;
use crate::critbit_tree_map::{has_prefix, starts_with};
use crate::default_map::{key_index, lemma_key_index, lemma_push_distinct, lemma_remove_distinct};
use crate::id_map::{char_entries, chars_get, chars_get_index, chars_insert, chars_len, chars_new, chars_shift_remove, CharMap};
use crate::ordered_keys::{
    key_order, keys_clear, keys_get_index, keys_index_of, keys_insert_full, keys_len, keys_new, keys_shift_remove_full,
};
use crate::std_wrappers::string_push;
use crate::text::chars_of;

verus! {

/// A node of the trie: whether a key ends here, and the node that follows
/// each next character, in the order those nodes were made.
struct TrieNode {
    has_value: bool,
    children: CharMap,
}

/// The keys and values after `key` is set to `value`: in place for a key,
/// or as a new last key.
pub open spec fn entries_after_set<V>(ks: Seq<Seq<char>>, vs: Seq<V>, key: Seq<char>, value: V) -> (Seq<Seq<char>>, Seq<V>) {
    if ks.contains(key) {
        (ks, vs.update(key_index(ks, key), value))
    } else {
        (ks.push(key), vs.push(value))
    }
}

/// The keys and values after setting each pair of `items` in turn.
pub open spec fn entries_after_all<V>(ks: Seq<Seq<char>>, vs: Seq<V>, items: Seq<(Seq<char>, V)>) -> (Seq<Seq<char>>, Seq<V>)
    decreases items.len(),
{
    if items.len() == 0 {
        (ks, vs)
    } else {
        let e = entries_after_all(ks, vs, items.drop_last());
        entries_after_set(e.0, e.1, items.last().0, items.last().1)
    }
}

/// The characters of all the keys of `items` together.
pub open spec fn total_key_len<V>(items: Seq<(Seq<char>, V)>) -> nat
    decreases items.len(),
{
    if items.len() == 0 {
        0
    } else {
        total_key_len(items.drop_last()) + items.last().0.len()
    }
}

/// The pairs of `items` as keys and values.
pub open spec fn pairs_view<V>(items: Seq<(String, V)>) -> Seq<(Seq<char>, V)> {
    items.map_values(|e: (String, V)| (e.0@, e.1))
}

/// The positions, in order, of the first `n` keys of `ks` that start with
/// `p`.
pub open spec fn prefixed(ks: Seq<Seq<char>>, p: Seq<char>, n: int) -> Seq<int>
    decreases n,
{
    if n <= 0 {
        Seq::empty()
    } else {
        prefixed(ks, p, n - 1) + if has_prefix(ks[n - 1], p) {
            seq![n - 1]
        } else {
            Seq::empty()
        }
    }
}

/// A map from string keys to values with a trie over the keys.
pub struct TrieMap<V> {
    nodes: Vec<TrieNode>,
    keys: IndexSet<String>,
    values: Vec<V>,
    paths: Ghost<Seq<Seq<char>>>,
}

/// The keys of a prefix of `items` are no longer together than all of
/// them.
proof fn lemma_total_key_len_prefix<V>(items: Seq<(Seq<char>, V)>, i: int)
    requires
        0 <= i <= items.len(),
    ensures
        total_key_len(items.take(i)) <= total_key_len(items),
    decreases items.len(),
{
    if i < items.len() {
        assert(items.drop_last().take(i) =~= items.take(i));
        lemma_total_key_len_prefix(items.drop_last(), i);
    } else {
        assert(items.take(i) =~= items);
    }
}

/// Two maps with the same nodes have the same trie.
proof fn lemma_same_trie<V>(a: TrieMap<V>, b: TrieMap<V>)
    requires
        a.trie_ok(),
        a.nodes@ == b.nodes@,
        a.paths@ == b.paths@,
    ensures
        b.trie_ok(),
{
    assert forall|m: int, t: int| 0 <= m < b.nodes@.len() && 0 <= t < b.kids(m).len() implies m < (#[trigger] b.kids(m)[t]).1
        < b.nodes@.len() by {
        assert(a.kids(m)[t] == b.kids(m)[t]);
    }
    assert forall|m: int, t: int, u: int| 0 <= m < b.nodes@.len() && 0 <= t < u < b.kids(m).len() implies (#[trigger] b.kids(
        m,
    )[t]).0 != (#[trigger] b.kids(m)[u]).0 by {
        assert(a.kids(m)[t] == b.kids(m)[t]);
        assert(a.kids(m)[u] == b.kids(m)[u]);
    }
    assert forall|m: int, t: int| 0 <= m < b.nodes@.len() && 0 <= t < b.kids(m).len() implies b.paths@[(#[trigger] b.kids(
        m,
    )[t]).1 as int] == b.paths@[m].push(b.kids(m)[t].0) by {
        assert(a.kids(m)[t] == b.kids(m)[t]);
    }
}

/// A walk that succeeds in `a` succeeds alike in `b` when `b` keeps every
/// child that `a` has.
proof fn lemma_walk_keep<V>(a: TrieMap<V>, b: TrieMap<V>, n: int, s: Seq<char>)
    requires
        a.trie_ok(),
        0 <= n < a.nodes@.len(),
        a.walk(n, s) is Some,
        forall|m: int, c: char| 0 <= m < a.nodes@.len() && a.child_of(m, c) is Some ==> #[trigger] b.child_of(m, c) == a.child_of(m, c),
    ensures
        b.walk(n, s) == a.walk(n, s),
    decreases s.len(),
{
    if s.len() > 0 {
        let u = a.lemma_child_of_some(n, s[0]);
        let x = a.kids(n)[u].1 as int;
        assert(b.child_of(n, s[0]) == a.child_of(n, s[0]));
        lemma_walk_keep(a, b, x, s.drop_first());
    }
}

/// A walk from `x` is unchanged in `b` when every node whose path extends
/// that of `x` is unchanged.
proof fn lemma_walk_unchanged<V>(a: TrieMap<V>, b: TrieMap<V>, x: int, s: Seq<char>)
    requires
        a.trie_ok(),
        b.nodes@.len() == a.nodes@.len(),
        0 <= x < a.nodes@.len(),
        a.walk(x, s) is Some,
        forall|m: int| 0 <= m < a.nodes@.len() && a.paths@[x].is_prefix_of(a.paths@[m]) ==> #[trigger] b.nodes@[m] == a.nodes@[m],
    ensures
        b.walk(x, s) == a.walk(x, s),
    decreases s.len(),
{
    if s.len() > 0 {
        assert(a.paths@[x].is_prefix_of(a.paths@[x]));
        assert(b.nodes@[x] == a.nodes@[x]);
        assert(b.kids(x) == a.kids(x));
        let u = a.lemma_child_of_some(x, s[0]);
        let y = a.kids(x)[u].1 as int;
        assert(b.child_of(x, s[0]) == a.child_of(x, s[0]));
        assert(a.paths@[y] == a.paths@[x].push(s[0]));
        assert forall|m: int| 0 <= m < a.nodes@.len() && a.paths@[y].is_prefix_of(a.paths@[m]) implies #[trigger] b.nodes@[m]
            == a.nodes@[m] by {
            assert(a.paths@[x].is_prefix_of(a.paths@[m])) by {
                assert forall|j: int| 0 <= j < a.paths@[x].len() implies a.paths@[x][j] == a.paths@[m][j] by {
                    assert(a.paths@[y][j] == a.paths@[x][j]);
                }
            }
        }
        lemma_walk_unchanged(a, b, y, s.drop_first());
    }
}

/// A prune below the child `next` of `n` for `cs[i]`, then perhaps the
/// removal of that child, keeps every other key reached from `n`.
proof fn lemma_prune_step<V>(
    s0: TrieMap<V>,
    s1: TrieMap<V>,
    s2: TrieMap<V>,
    n: int,
    next: int,
    cs: Seq<char>,
    i: int,
    pruned: bool,
    s: Seq<char>,
)
    requires
        s0.trie_ok(),
        s1.trie_ok(),
        s2.trie_ok(),
        s1.nodes@.len() == s0.nodes@.len(),
        s2.nodes@.len() == s0.nodes@.len(),
        s1.paths == s0.paths,
        s2.paths == s0.paths,
        0 <= n < s0.nodes@.len(),
        0 <= i < cs.len(),
        s0.child_of(n, cs[i]) == Some(next),
        s0.paths@[next] == s0.paths@[n].push(cs[i]),
        forall|m: int|
            0 <= m < s0.nodes@.len() && !s0.paths@[next].is_prefix_of(s0.paths@[m]) ==> #[trigger] s1.nodes@[m] == s0.nodes@[m],
        forall|t: Seq<char>|
            t != cs.skip(i + 1) && #[trigger] s0.walk(next, t) is Some && s0.nodes@[s0.walk(next, t)->0].has_value
                ==> s1.walk(next, t) == s0.walk(next, t) && s1.nodes@[s0.walk(next, t)->0].has_value,
        pruned == (!s1.nodes@[next].has_value && s1.kids(next).len() == 0),
        !pruned ==> s2 == s1,
        pruned ==> forall|m: int| 0 <= m < s0.nodes@.len() && m != n ==> #[trigger] s2.nodes@[m] == s1.nodes@[m],
        pruned ==> s2.nodes@[n].has_value == s1.nodes@[n].has_value,
        pruned ==> forall|d: char| d != cs[i] && s1.child_of(n, d) is Some ==> #[trigger] s2.child_of(n, d) == s1.child_of(n, d),
        s != cs.skip(i),
        s0.walk(n, s) is Some,
        s0.nodes@[s0.walk(n, s)->0].has_value,
    ensures
        s2.walk(n, s) == s0.walk(n, s),
        s2.nodes@[s0.walk(n, s)->0].has_value,
{
    let c = cs[i];
    let pn = s0.paths@[n];
    let e = s0.walk(n, s)->0;
    assert(!s0.paths@[next].is_prefix_of(pn));
    assert(s1.nodes@[n] == s0.nodes@[n]);
    assert(s1.kids(n) == s0.kids(n));
    if s.len() == 0 {
    } else if s[0] == c {
        let rest = s.drop_first();
        assert(cs.skip(i)[0] == c);
        assert(cs.skip(i).drop_first() =~= cs.skip(i + 1));
        if rest == cs.skip(i + 1) {
            assert(s =~= seq![s[0]] + rest);
            assert(cs.skip(i) =~= seq![c] + cs.skip(i + 1));
            assert(s =~= cs.skip(i));
        }
        assert(s0.walk(n, s) == s0.walk(next, rest));
        assert(s1.child_of(n, c) == Some(next));
        assert(s1.walk(next, rest) == Some(e));
        if pruned {
            if rest.len() > 0 {
                assert(s1.child_of(next, rest[0]) is None);
            }
            assert(false);
        }
        assert(s1.walk(n, s) == s1.walk(next, rest));
    } else {
        let rest = s.drop_first();
        let u = s0.lemma_child_of_some(n, s[0]);
        let x = s0.kids(n)[u].1 as int;
        assert(s0.paths@[x] == pn.push(s[0]));
        s0.lemma_walk_path(x, rest);
        assert forall|m: int| 0 <= m < s0.nodes@.len() && s0.paths@[x].is_prefix_of(s0.paths@[m]) implies #[trigger] s1.nodes@[m]
            == s0.nodes@[m] by {
            if s0.paths@[next].is_prefix_of(s0.paths@[m]) {
                assert(s0.paths@[m][pn.len() as int] == s0.paths@[next][pn.len() as int]);
                assert(s0.paths@[m][pn.len() as int] == s0.paths@[x][pn.len() as int]);
            }
        }
        lemma_walk_unchanged(s0, s1, x, rest);
        assert(s0.paths@[x].is_prefix_of(s0.paths@[e])) by {
            assert(s0.paths@[e] == s0.paths@[x] + rest);
        }
        assert(s1.child_of(n, s[0]) == s0.child_of(n, s[0]));
        assert forall|m: int| 0 <= m < s1.nodes@.len() && s1.paths@[x].is_prefix_of(s1.paths@[m]) implies #[trigger] s2.nodes@[m]
            == s1.nodes@[m] by {
            if m == n {
                assert(s0.paths@[x].len() > pn.len());
            }
            if !pruned {
                assert(s2 == s1);
            }
        }
        lemma_walk_unchanged(s1, s2, x, rest);
        if pruned {
            assert(s2.child_of(n, s[0]) == s1.child_of(n, s[0]));
        }
        assert(s2.walk(n, s) == s2.walk(x, rest));
        assert(e != n) by {
            if e == n {
                assert(s0.paths@[x].len() > pn.len());
            }
        }
        assert(s2.nodes@[e] == s0.nodes@[e]);
    }
}

/// After `key` is set to `value`, reading `key` gives `value`, and every
/// other key keeps its value.
pub proof fn lemma_read_after_set<V>(ks: Seq<Seq<char>>, vs: Seq<V>, key: Seq<char>, value: V, other: Seq<char>)
    requires
        ks.no_duplicates(),
        ks.len() == vs.len(),
    ensures
        ({
            let e = entries_after_set(ks, vs, key, value);
            &&& e.0.contains(key)
            &&& e.1[key_index(e.0, key)] == value
            &&& other != key && ks.contains(other) ==> e.0.contains(other) && e.1[key_index(e.0, other)]
                == vs[key_index(ks, other)]
        }),
{
    let e = entries_after_set(ks, vs, key, value);
    if ks.contains(key) {
        let i = choose|i: int| 0 <= i < ks.len() && ks[i] == key;
        lemma_key_index(ks, i);
        if other != key && ks.contains(other) {
            let j = choose|j: int| 0 <= j < ks.len() && ks[j] == other;
            lemma_key_index(ks, j);
        }
    } else {
        lemma_push_distinct(ks, key);
        lemma_key_index(ks.push(key), ks.len() as int);
        assert(ks.push(key)[ks.len() as int] == key);
        if other != key && ks.contains(other) {
            let j = choose|j: int| 0 <= j < ks.len() && ks[j] == other;
            lemma_key_index(ks, j);
            assert(ks.push(key)[j] == other);
            lemma_key_index(ks.push(key), j);
        }
    }
}

/// The keys of a list of found entries.
pub open spec fn found_keys<V>(r: Seq<(String, &V)>) -> Seq<Seq<char>> {
    r.map_values(|e: (String, &V)| e.0@)
}

/// The entries of `k` without the entry of the character `c`.
pub open spec fn entries_without(k: Seq<(char, usize)>, c: char) -> Seq<(char, usize)> {
    if exists|u: int| 0 <= u < k.len() && (#[trigger] k[u]).0 == c {
        k.remove(choose|u: int| 0 <= u < k.len() && (#[trigger] k[u]).0 == c)
    } else {
        k
    }
}

impl<V> TrieMap<V> {
    /// The keys, in insertion order.
    pub closed spec fn keys_seq(&self) -> Seq<Seq<char>> {
        key_order(self.keys)
    }

    /// The values, in the order of their keys.
    pub closed spec fn values_seq(&self) -> Seq<V> {
        self.values@
    }

    /// The number of trie nodes made since the map was last emptied.
    pub closed spec fn arena(&self) -> nat {
        self.nodes@.len()
    }

    /// The children of node `n`.
    closed spec fn kids(&self, n: int) -> Seq<(char, usize)> {
        char_entries(self.nodes@[n].children)
    }

    /// The root exists and every child comes after its parent in the
    /// arena.
    closed spec fn trie_ok(&self) -> bool {
        &&& self.nodes@.len() >= 1
        &&& self.paths@.len() == self.nodes@.len()
        &&& self.paths@[0] == Seq::<char>::empty()
        &&& forall|n: int, t: int|
            0 <= n < self.nodes@.len() && 0 <= t < self.kids(n).len() ==> self.paths@[(#[trigger] self.kids(n)[t]).1 as int]
                == self.paths@[n].push(self.kids(n)[t].0)
        &&& forall|n: int, t: int|
            0 <= n < self.nodes@.len() && 0 <= t < self.kids(n).len() ==> n < (#[trigger] self.kids(n)[t]).1
                < self.nodes@.len()
        &&& forall|n: int, t: int, u: int|
            0 <= n < self.nodes@.len() && 0 <= t < u < self.kids(n).len() ==> (#[trigger] self.kids(n)[t]).0
                != (#[trigger] self.kids(n)[u]).0
    }

    /// The child of node `n` for the character `c`, if it has one.
    pub closed spec fn child_of(&self, n: int, c: char) -> Option<int> {
        if exists|u: int| 0 <= u < self.kids(n).len() && (#[trigger] self.kids(n)[u]).0 == c {
            Some(self.kids(n)[choose|u: int| 0 <= u < self.kids(n).len() && (#[trigger] self.kids(n)[u]).0 == c].1 as int)
        } else {
            None
        }
    }

    /// The node reached from node `n` by following the characters of `s`,
    /// if every step has a child.
    pub closed spec fn walk(&self, n: int, s: Seq<char>) -> Option<int>
        decreases s.len(),
    {
        if s.len() == 0 {
            Some(n)
        } else {
            match self.child_of(n, s[0]) {
                Some(x) => self.walk(x, s.drop_first()),
                None => None,
            }
        }
    }

    /// The keys listed from node `n`, whose path spells `acc`: `acc` when a
    /// key ends at `n` and is a key of the map, then the listings of the
    /// children from the last made to the first.
    closed spec fn listing(&self, n: int, acc: Seq<char>) -> Seq<Seq<char>>
        decreases self.nodes@.len() - n, self.kids(n).len() + 1,
    {
        if 0 <= n < self.nodes@.len() {
            (if self.nodes@[n].has_value && self.keys_seq().contains(acc) {
                seq![acc]
            } else {
                Seq::empty()
            }) + self.listing_kids(n, acc, self.kids(n).len() as int)
        } else {
            Seq::empty()
        }
    }

    /// The listings of the first `t` children of node `n`, the last of
    /// them first.
    closed spec fn listing_kids(&self, n: int, acc: Seq<char>, t: int) -> Seq<Seq<char>>
        decreases self.nodes@.len() - n, t,
    {
        if t <= 0 || !(0 <= n < self.nodes@.len()) || t > self.kids(n).len() {
            Seq::empty()
        } else {
            let e = self.kids(n)[t - 1];
            (if n < e.1 < self.nodes@.len() {
                self.listing(e.1 as int, acc.push(e.0))
            } else {
                Seq::empty()
            }) + self.listing_kids(n, acc, t - 1)
        }
    }

    /// The keys listed from node `n` with the path `acc`, as `listing` says.
    pub closed spec fn listed(&self, n: int, acc: Seq<char>) -> Seq<Seq<char>> {
        self.listing(n, acc)
    }

    /// The child named by an entry of node `n` is the child for its
    /// character.
    proof fn lemma_child_of_at(&self, n: int, t: int)
        requires
            self.trie_ok(),
            0 <= n < self.nodes@.len(),
            0 <= t < self.kids(n).len(),
        ensures
            self.child_of(n, self.kids(n)[t].0) == Some(self.kids(n)[t].1 as int),
    {
        let c = self.kids(n)[t].0;
        assert(exists|u: int| 0 <= u < self.kids(n).len() && (#[trigger] self.kids(n)[u]).0 == c);
        let u = choose|u: int| 0 <= u < self.kids(n).len() && (#[trigger] self.kids(n)[u]).0 == c;
        if u < t {
            assert(self.kids(n)[u].0 != self.kids(n)[t].0);
        } else if t < u {
            assert(self.kids(n)[t].0 != self.kids(n)[u].0);
        }
    }

    /// A child of node `n` is an entry of `n` for its character.
    proof fn lemma_child_of_some(&self, n: int, c: char) -> (u: int)
        requires
            self.trie_ok(),
            0 <= n < self.nodes@.len(),
            self.child_of(n, c) is Some,
        ensures
            0 <= u < self.kids(n).len(),
            self.kids(n)[u].0 == c,
            self.child_of(n, c) == Some(self.kids(n)[u].1 as int),
    {
        choose|u: int| 0 <= u < self.kids(n).len() && (#[trigger] self.kids(n)[u]).0 == c
    }

    /// Walking `s` from node `n` ends at a node whose path is that of `n`
    /// followed by `s`.
    proof fn lemma_walk_path(&self, n: int, s: Seq<char>)
        requires
            self.trie_ok(),
            0 <= n < self.nodes@.len(),
            self.walk(n, s) is Some,
        ensures
            0 <= self.walk(n, s)->0 < self.nodes@.len(),
            self.paths@[self.walk(n, s)->0] == self.paths@[n] + s,
        decreases s.len(),
    {
        if s.len() == 0 {
            assert(self.paths@[n] + s =~= self.paths@[n]);
        } else {
            let u = self.lemma_child_of_some(n, s[0]);
            let x = self.kids(n)[u].1 as int;
            self.lemma_walk_path(x, s.drop_first());
            assert(self.paths@[n].push(s[0]) + s.drop_first() =~= self.paths@[n] + s);
        }
    }

    /// The listing of the first `t` children of `n` holds the listing of
    /// each of them.
    proof fn lemma_listing_kids_has(&self, n: int, acc: Seq<char>, t: int, u: int, k: Seq<char>)
        requires
            self.trie_ok(),
            0 <= n < self.nodes@.len(),
            0 <= u < t <= self.kids(n).len(),
            self.listing(self.kids(n)[u].1 as int, acc.push(self.kids(n)[u].0)).contains(k),
        ensures
            self.listing_kids(n, acc, t).contains(k),
        decreases t,
    {
        let e = self.kids(n)[t - 1];
        let head = self.listing(e.1 as int, acc.push(e.0));
        let rest = self.listing_kids(n, acc, t - 1);
        assert(self.listing_kids(n, acc, t) == head + rest);
        if u == t - 1 {
            let i = choose|i: int| 0 <= i < head.len() && head[i] == k;
            assert((head + rest)[i] == k);
        } else {
            self.lemma_listing_kids_has(n, acc, t - 1, u, k);
            let i = choose|i: int| 0 <= i < rest.len() && rest[i] == k;
            assert((head + rest)[head.len() + i] == k);
        }
    }

    /// A key reached from node `n` by `s`, with a value there, is listed
    /// from `n` with the path `acc`.
    proof fn lemma_listing_has(&self, n: int, acc: Seq<char>, s: Seq<char>)
        requires
            self.trie_ok(),
            0 <= n < self.nodes@.len(),
            self.walk(n, s) is Some,
            self.nodes@[self.walk(n, s)->0].has_value,
            self.keys_seq().contains(acc + s),
        ensures
            self.listing(n, acc).contains(acc + s),
        decreases s.len(),
    {
        let own: Seq<Seq<char>> = if self.nodes@[n].has_value && self.keys_seq().contains(acc) {
            seq![acc]
        } else {
            Seq::empty()
        };
        let kl = self.listing_kids(n, acc, self.kids(n).len() as int);
        assert(self.listing(n, acc) == own + kl);
        if s.len() == 0 {
            assert(acc + s =~= acc);
            assert((own + kl)[0] == acc);
        } else {
            let u = self.lemma_child_of_some(n, s[0]);
            let x = self.kids(n)[u].1 as int;
            assert(acc.push(s[0]) + s.drop_first() =~= acc + s);
            self.lemma_listing_has(x, acc.push(s[0]), s.drop_first());
            self.lemma_listing_kids_has(n, acc, self.kids(n).len() as int, u, acc + s);
            let i = choose|i: int| 0 <= i < kl.len() && kl[i] == acc + s;
            assert((own + kl)[own.len() + i] == acc + s);
        }
    }

    /// Walking `a` then `b` is walking `a + b`.
    proof fn lemma_walk_concat(&self, n: int, a: Seq<char>, b: Seq<char>)
        ensures
            self.walk(n, a + b) == (match self.walk(n, a) {
                Some(m) => self.walk(m, b),
                None => None,
            }),
        decreases a.len(),
    {
        if a.len() == 0 {
            assert(a + b =~= b);
        } else {
            assert((a + b)[0] == a[0]);
            assert((a + b).drop_first() =~= a.drop_first() + b);
            match self.child_of(n, a[0]) {
                Some(x) => {
                    self.lemma_walk_concat(x, a.drop_first(), b);
                },
                None => {},
            }
        }
    }

    /// Every key's characters lead from the root to a node where a key
    /// ends.
    closed spec fn keys_reached(&self) -> bool {
        forall|k: Seq<char>|
            #[trigger] self.keys_seq().contains(k) ==> self.walk(0, k) is Some && self.nodes@[self.walk(0, k)->0].has_value
    }

    /// One value per key, keys distinct, the trie well formed, and every
    /// key in the trie.
    pub closed spec fn wf(&self) -> bool {
        &&& key_order(self.keys).len() == self.values@.len()
        &&& key_order(self.keys).no_duplicates()
        &&& self.trie_ok()
        &&& self.keys_reached()
    }

    /// An empty map.
    pub fn new() -> (r: Self)
        ensures
            r.wf(),
            r.arena() == 1,
            r.keys_seq() == Seq::<Seq<char>>::empty(),
            r.values_seq() == Seq::<V>::empty(),
    {
        let mut nodes: Vec<TrieNode> = Vec::new();
        nodes.push(TrieNode { has_value: false, children: chars_new() });
        TrieMap { nodes, keys: keys_new(), values: Vec::new(), paths: Ghost(Seq::<Seq<char>>::empty().push(Seq::<char>::empty())) }
    }

    /// The number of keys.
    pub fn size(&self) -> (r: usize)
        ensures
            r == self.keys_seq().len(),
    {
        keys_len(&self.keys)
    }

    /// Removes every key.
    pub fn clear(&mut self)
        ensures
            final(self).wf(),
            final(self).arena() == 1,
            final(self).keys_seq() == Seq::<Seq<char>>::empty(),
            final(self).values_seq() == Seq::<V>::empty(),
    {
        let mut nodes: Vec<TrieNode> = Vec::new();
        nodes.push(TrieNode { has_value: false, children: chars_new() });
        self.nodes = nodes;
        keys_clear(&mut self.keys);
        self.values = Vec::new();
        self.paths = Ghost(Seq::<Seq<char>>::empty().push(Seq::<char>::empty()));
    }

    /// Whether `key` is a key.
    pub fn has(&self, key: &str) -> (r: bool)
        ensures
            r == self.keys_seq().contains(key@),
    {
        keys_index_of(&self.keys, key).is_some()
    }

    /// The value of `key`, if it is a key.
    pub fn get(&self, key: &str) -> (r: Option<&V>)
        requires
            self.wf(),
        ensures
            !self.keys_seq().contains(key@) ==> r is None,
            self.keys_seq().contains(key@) ==> r == Some(&self.values_seq()[key_index(self.keys_seq(), key@)]),
    {
        match keys_index_of(&self.keys, key) {
            Some(i) => {
                proof {
                    lemma_key_index(self.keys_seq(), i as int);
                }
                Some(&self.values[i])
            },
            None => None,
        }
    }

    /// Sets whether a key ends at node `n`.
    fn mark(&mut self, n: usize, value: bool)
        requires
            old(self).trie_ok(),
            n < old(self).nodes@.len(),
        ensures
            final(self).trie_ok(),
            final(self).nodes@.len() == old(self).nodes@.len(),
            final(self).nodes@[n as int].has_value == value,
            forall|m: int| 0 <= m < old(self).nodes@.len() ==> #[trigger] final(self).kids(m) == old(self).kids(m),
            forall|m: int| 0 <= m < old(self).nodes@.len() && m != n ==> #[trigger] final(self).nodes@[m] == old(self).nodes@[m],
            final(self).keys == old(self).keys,
            final(self).values == old(self).values,
            final(self).paths == old(self).paths,
    {
        let mut node = TrieNode { has_value: false, children: chars_new() };
        std::mem::swap(&mut node, &mut self.nodes[n]);
        node.has_value = value;
        std::mem::swap(&mut node, &mut self.nodes[n]);
        proof {
            assert forall|m: int| 0 <= m < old(self).nodes@.len() implies #[trigger] self.kids(m) == old(self).kids(m) by {
                if m != n {
                    assert(self.nodes@[m] == old(self).nodes@[m]);
                }
            }
            assert forall|m: int, t: int, u: int| 0 <= m < self.nodes@.len() && 0 <= t < u < self.kids(m).len() implies (
            #[trigger] self.kids(m)[t]).0 != (#[trigger] self.kids(m)[u]).0 by {
                assert(self.kids(m) == old(self).kids(m));
                assert(old(self).kids(m)[t] == self.kids(m)[t]);
                assert(old(self).kids(m)[u] == self.kids(m)[u]);
            }
            assert forall|m: int, t: int| 0 <= m < self.nodes@.len() && 0 <= t < self.kids(m).len() implies self.paths@[(
            #[trigger] self.kids(m)[t]).1 as int] == self.paths@[m].push(self.kids(m)[t].0) by {
                assert(self.kids(m) == old(self).kids(m));
                assert(old(self).kids(m)[t] == self.kids(m)[t]);
            }
        }
    }

    /// Makes a new node the child of `n` for the character `c`, which `n`
    /// has no child for, and returns it.
    fn add_child(&mut self, n: usize, c: char) -> (id: usize)
        requires
            old(self).trie_ok(),
            n < old(self).nodes@.len(),
            forall|t: int| 0 <= t < old(self).kids(n as int).len() ==> (#[trigger] old(self).kids(n as int)[t]).0 != c,
            old(self).nodes@.len() < usize::MAX,
        ensures
            final(self).trie_ok(),
            id == old(self).nodes@.len(),
            final(self).nodes@.len() == old(self).nodes@.len() + 1,
            final(self).keys == old(self).keys,
            final(self).values == old(self).values,
            final(self).paths@ == old(self).paths@.push(old(self).paths@[n as int].push(c)),
            final(self).child_of(n as int, c) == Some(id as int),
            forall|m: int, d: char|
                0 <= m < old(self).nodes@.len() && old(self).child_of(m, d) is Some ==> #[trigger] final(self).child_of(m, d)
                    == old(self).child_of(m, d),
            forall|m: int| 0 <= m < old(self).nodes@.len() ==> #[trigger] final(self).nodes@[m].has_value == old(self).nodes@[m].has_value,
    {
        let id = self.nodes.len();
        self.nodes.push(TrieNode { has_value: false, children: chars_new() });
        proof {
            self.paths@ = self.paths@.push(self.paths@[n as int].push(c));
        }
        let ghost n1 = self.nodes@;
        let mut node = TrieNode { has_value: false, children: chars_new() };
        std::mem::swap(&mut node, &mut self.nodes[n]);
        let ghost k0 = char_entries(node.children);
        chars_insert(&mut node.children, c, id);
        std::mem::swap(&mut node, &mut self.nodes[n]);
        proof {
            assert(k0 == old(self).kids(n as int));
            assert(self.kids(n as int) == k0.push((c, id)));
            assert forall|m: int, t: int|
                0 <= m < self.nodes@.len() && 0 <= t < self.kids(m).len() implies m < (#[trigger] self.kids(m)[t]).1
                < self.nodes@.len() by {
                if m == id {
                    assert(self.nodes@[m] == n1[m]);
                } else if m != n {
                    assert(self.nodes@[m] == old(self).nodes@[m]);
                    assert(old(self).kids(m)[t].1 < old(self).nodes@.len());
                } else if t < k0.len() {
                    assert(self.kids(m)[t] == k0[t]);
                }
            }
            assert forall|m: int, t: int, u: int| 0 <= m < self.nodes@.len() && 0 <= t < u < self.kids(m).len() implies (
            #[trigger] self.kids(m)[t]).0 != (#[trigger] self.kids(m)[u]).0 by {
                if m == id {
                    assert(self.nodes@[m] == n1[m]);
                } else if m != n {
                    assert(self.nodes@[m] == old(self).nodes@[m]);
                    assert(old(self).kids(m)[t] == self.kids(m)[t]);
                    assert(old(self).kids(m)[u] == self.kids(m)[u]);
                } else {
                    assert(self.kids(m)[t] == k0.push((c, id))[t]);
                    assert(self.kids(m)[u] == k0.push((c, id))[u]);
                    if u < k0.len() {
                        assert(old(self).kids(m)[t] == k0[t]);
                        assert(old(self).kids(m)[u] == k0[u]);
                    } else {
                        assert(old(self).kids(n as int)[t] == k0[t]);
                    }
                }
            }
            assert forall|m: int, t: int| 0 <= m < self.nodes@.len() && 0 <= t < self.kids(m).len() implies self.paths@[(
            #[trigger] self.kids(m)[t]).1 as int] == self.paths@[m].push(self.kids(m)[t].0) by {
                if m == id {
                    assert(self.nodes@[m] == n1[m]);
                } else if m != n {
                    assert(self.nodes@[m] == old(self).nodes@[m]);
                    assert(old(self).kids(m)[t] == self.kids(m)[t]);
                } else if t < k0.len() {
                    assert(self.kids(m)[t] == k0[t]);
                    assert(old(self).kids(m)[t] == k0[t]);
                } else {
                    assert(self.kids(m)[t] == (c, id));
                }
            }
            assert(self.kids(n as int)[k0.len() as int] == (c, id));
            self.lemma_child_of_at(n as int, k0.len() as int);
            assert forall|m: int, d: char|
                0 <= m < old(self).nodes@.len() && old(self).child_of(m, d) is Some implies #[trigger] self.child_of(m, d)
                    == old(self).child_of(m, d) by {
                if m != n {
                    assert(self.nodes@[m] == old(self).nodes@[m]);
                    assert(self.kids(m) == old(self).kids(m));
                } else {
                    let u = old(self).lemma_child_of_some(m, d);
                    assert(self.kids(m)[u] == k0[u]);
                    self.lemma_child_of_at(m, u);
                }
            }
            assert forall|m: int| 0 <= m < old(self).nodes@.len() implies #[trigger] self.nodes@[m].has_value == old(
                self,
            ).nodes@[m].has_value by {
                if m != n {
                    assert(self.nodes@[m] == old(self).nodes@[m]);
                }
            }
        }
        id
    }

    /// The child of node `n` for the character `c`, if it has one.
    fn child(&self, n: usize, c: char) -> (r: Option<usize>)
        requires
            self.trie_ok(),
            n < self.nodes@.len(),
        ensures
            r is None <==> forall|t: int| 0 <= t < self.kids(n as int).len() ==> (#[trigger] self.kids(n as int)[t]).0 != c,
            r matches Some(id) ==> n < id < self.nodes@.len(),
            r is None ==> self.child_of(n as int, c) is None,
            r matches Some(id) ==> self.child_of(n as int, c) == Some(id as int),
    {
        let r = chars_get(&self.nodes[n].children, c);
        proof {
            if let Some(id) = r {
                let t = choose|t: int| 0 <= t < self.kids(n as int).len() && #[trigger] self.kids(n as int)[t] == (c, id);
                assert(self.kids(n as int)[t].1 == id);
                assert(self.kids(n as int)[t].0 == c);
                let u = choose|u: int| 0 <= u < self.kids(n as int).len() && (#[trigger] self.kids(n as int)[u]).0 == c;
                if u < t {
                    assert(self.kids(n as int)[u].0 != self.kids(n as int)[t].0);
                } else if t < u {
                    assert(self.kids(n as int)[t].0 != self.kids(n as int)[u].0);
                }
            } else {
                if exists|u: int| 0 <= u < self.kids(n as int).len() && (#[trigger] self.kids(n as int)[u]).0 == c {
                    let u = choose|u: int| 0 <= u < self.kids(n as int).len() && (#[trigger] self.kids(n as int)[u]).0 == c;
                    assert(self.kids(n as int)[u].0 != c);
                }
            }
        }
        r
    }

    /// Maps `key` to `value`, in place for a key or as a new last key, and
    /// marks the end of its path in the trie.
    pub fn set(&mut self, key: String, value: V)
        requires
            old(self).wf(),
            old(self).arena() + key@.len() < usize::MAX,
        ensures
            final(self).wf(),
            final(self).arena() <= old(self).arena() + key@.len(),
            (final(self).keys_seq(), final(self).values_seq()) == entries_after_set(
                old(self).keys_seq(),
                old(self).values_seq(),
                key@,
                value,
            ),
    {
        let cs = chars_of(key.as_str());
        let mut node: usize = 0;
        let mut i: usize = 0;
        while i < cs.len()
            invariant
                self.trie_ok(),
                node < self.nodes@.len(),
                i <= cs@.len(),
                self.nodes@.len() + (cs@.len() - i) <= old(self).nodes@.len() + key@.len(),
                old(self).nodes@.len() + key@.len() < usize::MAX,
                self.keys == old(self).keys,
                self.values == old(self).values,
                cs@ == key@,
                old(self).trie_ok(),
                self.nodes@.len() >= old(self).nodes@.len(),
                self.walk(0, cs@.take(i as int)) == Some(node as int),
                forall|m: int, d: char|
                    0 <= m < old(self).nodes@.len() && old(self).child_of(m, d) is Some ==> #[trigger] self.child_of(m, d)
                        == old(self).child_of(m, d),
                forall|m: int| 0 <= m < old(self).nodes@.len() ==> #[trigger] self.nodes@[m].has_value == old(self).nodes@[m].has_value,
            decreases cs@.len() - i,
        {
            let ghost prev = node;
            let ghost s0 = *self;
            proof {
                assert(cs@.take(i + 1) =~= cs@.take(i as int) + seq![cs@[i as int]]);
                assert(seq![cs@[i as int]].drop_first() =~= Seq::<char>::empty());
            }
            match self.child(node, cs[i]) {
                Some(next) => {
                    node = next;
                },
                None => {
                    node = self.add_child(node, cs[i]);
                    proof {
                        lemma_walk_keep(s0, *self, 0, cs@.take(i as int));
                    }
                },
            }
            proof {
                let one = seq![cs@[i as int]];
                assert(one.len() == 1 && one[0] == cs@[i as int]);
                assert(self.walk(node as int, one.drop_first()) == Some(node as int));
                assert(self.walk(prev as int, one) == Some(node as int));
                self.lemma_walk_concat(0, cs@.take(i as int), one);
            }
            i = i + 1;
        }
        let ghost s0 = *self;
        self.mark(node, true);
        let ghost s1 = *self;
        proof {
            assert(cs@.take(cs@.len() as int) =~= cs@);
            assert forall|m: int, d: char| 0 <= m < s0.nodes@.len() && s0.child_of(m, d) is Some implies #[trigger] s1.child_of(
                m,
                d,
            ) == s0.child_of(m, d) by {
                assert(s1.kids(m) == s0.kids(m));
            }
            lemma_walk_keep(s0, s1, 0, key@);
        }
        let ghost k = key@;
        let (p, added) = keys_insert_full(&mut self.keys, key);
        if added {
            self.values.push(value);
            proof {
                lemma_push_distinct(old(self).keys_seq(), k);
            }
        } else {
            proof {
                lemma_key_index(old(self).keys_seq(), p as int);
            }
            self.values.set(p, value);
        }
        proof {
            lemma_same_trie(s1, *self);
            assert forall|m: int, d: char| 0 <= m < s1.nodes@.len() && s1.child_of(m, d) is Some implies #[trigger] self.child_of(
                m,
                d,
            ) == s1.child_of(m, d) by {
                assert(self.kids(m) == s1.kids(m));
            }
            assert forall|k2: Seq<char>| #[trigger] self.keys_seq().contains(k2) implies self.walk(0, k2) is Some && self.nodes@[self.walk(
                0,
                k2,
            )->0].has_value by {
                assert(self.kids(0) == s1.kids(0));
                if k2 != k {
                    assert(old(self).keys_seq().contains(k2));
                    old(self).lemma_walk_path(0, k2);
                    lemma_walk_keep(*old(self), s0, 0, k2);
                    lemma_walk_keep(s0, s1, 0, k2);
                    lemma_walk_keep(s1, *self, 0, k2);
                } else {
                    lemma_walk_keep(s1, *self, 0, k2);
                }
            }
        }
    }

    /// A map of the pairs of `items`, set in order.
    pub fn from_iter(items: Vec<(String, V)>) -> (r: Self)
        requires
            1 + total_key_len(pairs_view(items@)) < usize::MAX,
        ensures
            r.wf(),
            (r.keys_seq(), r.values_seq()) == entries_after_all(
                Seq::<Seq<char>>::empty(),
                Seq::<V>::empty(),
                pairs_view(items@),
            ),
    {
        let ghost all = pairs_view(items@);
        let n = items.len();
        let mut items = items;
        let mut rev: Vec<(String, V)> = Vec::new();
        while items.len() > 0
            invariant
                n == all.len(),
                items@.len() + rev@.len() == n,
                pairs_view(items@) == all.take(items@.len() as int),
                forall|j: int| 0 <= j < rev@.len() ==> (#[trigger] pairs_view(rev@)[j]) == all[n - 1 - j],
            decreases items@.len(),
        {
            let ghost i0 = items@;
            let ghost r0 = rev@;
            match items.pop() {
                Some(e) => {
                    rev.push(e);
                    proof {
                        assert(i0 == items@.push(e));
                        assert(pairs_view(items@) =~= all.take(items@.len() as int)) by {
                            assert(pairs_view(i0).drop_last() =~= pairs_view(items@));
                        }
                        assert(pairs_view(i0)[items@.len() as int] == all[items@.len() as int]);
                        assert forall|j: int| 0 <= j < rev@.len() implies (#[trigger] pairs_view(rev@)[j]) == all[n - 1 - j] by {
                            if j < r0.len() {
                                assert(pairs_view(rev@)[j] == pairs_view(r0)[j]);
                            }
                        }
                    }
                },
                None => {},
            }
        }
        let mut map = TrieMap::new();
        let mut i: usize = 0;
        proof {
            assert(all.take(0) =~= Seq::<(Seq<char>, V)>::empty());
        }
        while rev.len() > 0
            invariant
                map.wf(),
                n == all.len(),
                i + rev@.len() == n,
                forall|j: int| 0 <= j < rev@.len() ==> (#[trigger] pairs_view(rev@)[j]) == all[n - 1 - j],
                (map.keys_seq(), map.values_seq()) == entries_after_all(
                    Seq::<Seq<char>>::empty(),
                    Seq::<V>::empty(),
                    all.take(i as int),
                ),
                map.arena() <= 1 + total_key_len(all.take(i as int)),
                1 + total_key_len(all) < usize::MAX,
            decreases rev@.len(),
        {
            let ghost r0 = rev@;
            match rev.pop() {
                Some(e) => {
                    proof {
                        assert(r0 == rev@.push(e));
                        assert(pairs_view(r0)[rev@.len() as int] == all[i as int]);
                        assert(all.take(i + 1).drop_last() =~= all.take(i as int));
                        lemma_total_key_len_prefix(all, i + 1);
                        assert forall|j: int| 0 <= j < rev@.len() implies (#[trigger] pairs_view(rev@)[j]) == all[n - 1 - j] by {
                            assert(pairs_view(rev@)[j] == pairs_view(r0)[j]);
                        }
                    }
                    let (k, v) = e;
                    map.set(k, v);
                    i = i + 1;
                },
                None => {},
            }
        }
        proof {
            assert(all.take(n as int) =~= all);
        }
        map
    }

    /// Sets `key` to what `updater` makes of its current value.
    pub fn update<F: FnOnce(Option<&V>) -> V>(&mut self, key: String, updater: F)
        requires
            old(self).wf(),
            old(self).arena() + key@.len() < usize::MAX,
            forall|o: Option<&V>| call_requires(updater, (o,)),
        ensures
            final(self).wf(),
            exists|v: V|
                call_ensures(
                    updater,
                    ((if old(self).keys_seq().contains(key@) {
                        Some(&old(self).values_seq()[key_index(old(self).keys_seq(), key@)])
                    } else {
                        None
                    }),),
                    v,
                ) && (final(self).keys_seq(), final(self).values_seq()) == entries_after_set(
                    old(self).keys_seq(),
                    old(self).values_seq(),
                    key@,
                    v,
                ),
    {
        let value = updater(self.get(key.as_str()));
        self.set(key, value);
    }

    /// Clears the end mark of `cs[i..]` below node `n` and takes out the
    /// nodes left with neither a key nor children; returns whether `n` is
    /// left so.
    fn prune(&mut self, n: usize, cs: &Vec<char>, i: usize) -> (r: bool)
        requires
            old(self).trie_ok(),
            n < old(self).nodes@.len(),
            i <= cs@.len(),
        ensures
            final(self).trie_ok(),
            final(self).nodes@.len() == old(self).nodes@.len(),
            final(self).keys == old(self).keys,
            final(self).values == old(self).values,
            final(self).paths == old(self).paths,
            forall|m: int| 0 <= m < n ==> #[trigger] final(self).nodes@[m] == old(self).nodes@[m],
            r == (!final(self).nodes@[n as int].has_value && final(self).kids(n as int).len() == 0),
            i == cs@.len() ==> !final(self).nodes@[n as int].has_value,
            i == cs@.len() ==> final(self).kids(n as int) == old(self).kids(n as int),
            i < cs@.len() ==> final(self).nodes@[n as int].has_value == old(self).nodes@[n as int].has_value,
            i < cs@.len() ==> (final(self).kids(n as int) == old(self).kids(n as int) || final(self).kids(n as int)
                == entries_without(old(self).kids(n as int), cs@[i as int])),
            final(self).walk(n as int, cs@.skip(i as int)) matches Some(m) ==> !final(self).nodes@[m].has_value,
            forall|m: int|
                0 <= m < old(self).nodes@.len() && !old(self).paths@[n as int].is_prefix_of(old(self).paths@[m])
                    ==> #[trigger] final(self).nodes@[m] == old(self).nodes@[m],
            forall|s: Seq<char>|
                s != cs@.skip(i as int) && #[trigger] old(self).walk(n as int, s) is Some && old(self).nodes@[old(
                    self,
                ).walk(n as int, s)->0].has_value ==> final(self).walk(n as int, s) == old(self).walk(n as int, s)
                    && final(self).nodes@[old(self).walk(n as int, s)->0].has_value,
        decreases cs@.len() - i,
    {
        if i == cs.len() {
            let ghost s0 = *self;
            self.mark(n, false);
            proof {
                assert(cs@.skip(i as int).len() == 0);
                assert(s0.paths@[n as int].is_prefix_of(s0.paths@[n as int]));
                assert forall|m: int, d: char| 0 <= m < s0.nodes@.len() && s0.child_of(m, d) is Some implies #[trigger] self.child_of(
                    m,
                    d,
                ) == s0.child_of(m, d) by {
                    assert(self.kids(m) == s0.kids(m));
                }
                assert forall|s: Seq<char>|
                    s != cs@.skip(i as int) && #[trigger] s0.walk(n as int, s) is Some && s0.nodes@[s0.walk(n as int, s)->0].has_value
                        implies self.walk(n as int, s) == s0.walk(n as int, s) && self.nodes@[s0.walk(n as int, s)->0].has_value by {
                    lemma_walk_keep(s0, *self, n as int, s);
                    s0.lemma_walk_path(n as int, s);
                    if s.len() == 0 {
                        assert(s =~= cs@.skip(i as int));
                    }
                    assert(s.len() > 0);
                    assert(s0.walk(n as int, s)->0 != n);
                }
            }
            return chars_len(&self.nodes[n].children) == 0;
        }
        let ghost s0 = *self;
        proof {
            let rest = cs@.skip(i as int);
            assert(rest.len() > 0 && rest[0] == cs@[i as int]);
            assert(rest.drop_first() =~= cs@.skip(i + 1));
        }
        match self.child(n, cs[i]) {
            Some(next) => {
                let c = cs[i];
                let ghost pn = s0.paths@[n as int];
                proof {
                    let u = s0.lemma_child_of_some(n as int, c);
                    assert(s0.paths@[next as int] == pn.push(c));
                }
                let pruned = self.prune(next, cs, i + 1);
                let ghost s1 = *self;
                proof {
                    assert(!s0.paths@[next as int].is_prefix_of(pn));
                    assert(s1.nodes@[n as int] == s0.nodes@[n as int]);
                    assert(s1.kids(n as int) == s0.kids(n as int));
                    assert(s1.child_of(n as int, cs@[i as int]) == s0.child_of(n as int, cs@[i as int]));
                }
                if pruned {
                    self.remove_child(n, cs[i]);
                    proof {
                        assert forall|m: int| 0 <= m < n implies #[trigger] self.nodes@[m] == s0.nodes@[m] by {
                            assert(s1.nodes@[m] == s0.nodes@[m]);
                        }
                    }
                } else {
                    proof {
                        assert(self.walk(n as int, cs@.skip(i as int)) == self.walk(next as int, cs@.skip(i + 1)));
                    }
                }
                proof {
                    assert forall|m: int|
                        0 <= m < s0.nodes@.len() && !s0.paths@[n as int].is_prefix_of(s0.paths@[m]) implies #[trigger] self.nodes@[m]
                            == s0.nodes@[m] by {
                        if s0.paths@[next as int].is_prefix_of(s0.paths@[m]) {
                            assert(s0.paths@[n as int].is_prefix_of(s0.paths@[m])) by {
                                assert forall|j: int| 0 <= j < pn.len() implies pn[j] == s0.paths@[m][j] by {
                                    assert(s0.paths@[next as int][j] == pn[j]);
                                }
                            }
                        }
                        assert(m != n) by {
                            if m == n {
                                assert(pn.is_prefix_of(pn));
                            }
                        }
                        assert(s1.nodes@[m] == s0.nodes@[m]);
                    }
                    assert forall|s: Seq<char>|
                        s != cs@.skip(i as int) && #[trigger] s0.walk(n as int, s) is Some && s0.nodes@[s0.walk(n as int, s)->0].has_value
                            implies self.walk(n as int, s) == s0.walk(n as int, s) && self.nodes@[s0.walk(
                            n as int,
                            s,
                        )->0].has_value by {
                        lemma_prune_step(s0, s1, *self, n as int, next as int, cs@, i as int, pruned, s);
                    }
                }
            },
            None => {
                proof {
                    assert(self.walk(n as int, cs@.skip(i as int)) is None);
                }
            },
        }
        !self.nodes[n].has_value && chars_len(&self.nodes[n].children) == 0
    }

    /// Takes the child of node `n` for `c` out of the trie.
    fn remove_child(&mut self, n: usize, c: char)
        requires
            old(self).trie_ok(),
            n < old(self).nodes@.len(),
        ensures
            final(self).trie_ok(),
            final(self).nodes@.len() == old(self).nodes@.len(),
            final(self).kids(n as int) == entries_without(old(self).kids(n as int), c),
            final(self).child_of(n as int, c) is None,
            final(self).nodes@[n as int].has_value == old(self).nodes@[n as int].has_value,
            forall|m: int| 0 <= m < old(self).nodes@.len() && m != n ==> #[trigger] final(self).nodes@[m] == old(self).nodes@[m],
            final(self).keys == old(self).keys,
            final(self).values == old(self).values,
            final(self).paths == old(self).paths,
            forall|d: char| d != c && old(self).child_of(n as int, d) is Some ==> #[trigger] final(self).child_of(n as int, d)
                == old(self).child_of(n as int, d),
    {
        let mut node = TrieNode { has_value: false, children: chars_new() };
        std::mem::swap(&mut node, &mut self.nodes[n]);
        let ghost k0 = char_entries(node.children);
        chars_shift_remove(&mut node.children, c);
        let ghost k1 = char_entries(node.children);
        std::mem::swap(&mut node, &mut self.nodes[n]);
        proof {
            assert(k0 == old(self).kids(n as int));
            assert(self.kids(n as int) == k1);
            let has = exists|u: int| 0 <= u < k0.len() && (#[trigger] k0[u]).0 == c;
            if has {
                let u = choose|u: int| 0 <= u < k0.len() && (#[trigger] k0[u]).0 == c;
                assert(k1 == k0.remove(u));
                assert(k1 == entries_without(k0, c));
                assert forall|t: int| 0 <= t < k1.len() implies (#[trigger] k1[t]).0 != c && n < k1[t].1 < self.nodes@.len() by {
                    if t < u {
                        assert(k1[t] == k0[t]);
                        assert(old(self).kids(n as int)[t].0 != old(self).kids(n as int)[u].0);
                    } else {
                        assert(k1[t] == k0[t + 1]);
                        assert(old(self).kids(n as int)[u].0 != old(self).kids(n as int)[t + 1].0);
                    }
                }
                assert forall|t: int, v: int| 0 <= t < v < k1.len() implies (#[trigger] k1[t]).0 != (#[trigger] k1[v]).0 by {
                    let t0 = if t < u { t } else { t + 1 };
                    let v0 = if v < u { v } else { v + 1 };
                    assert(k1[t] == k0[t0] && k1[v] == k0[v0]);
                    assert(old(self).kids(n as int)[t0].0 != old(self).kids(n as int)[v0].0);
                }
                assert forall|t: int| 0 <= t < k1.len() implies self.paths@[(#[trigger] k1[t]).1 as int] == self.paths@[n as int].push(
                    k1[t].0,
                ) by {
                    let t0 = if t < u { t } else { t + 1 };
                    assert(k1[t] == k0[t0]);
                    assert(old(self).kids(n as int)[t0] == k0[t0]);
                }
            } else {
                assert(k1 == k0);
                assert(k1 == entries_without(k0, c));
                assert forall|t: int| 0 <= t < k1.len() implies (#[trigger] k1[t]).0 != c && n < k1[t].1 < self.nodes@.len() by {
                    assert(old(self).kids(n as int)[t] == k1[t]);
                }
                assert forall|t: int, v: int| 0 <= t < v < k1.len() implies (#[trigger] k1[t]).0 != (#[trigger] k1[v]).0 by {
                    assert(old(self).kids(n as int)[t] == k1[t]);
                    assert(old(self).kids(n as int)[v] == k1[v]);
                }
                assert forall|t: int| 0 <= t < k1.len() implies self.paths@[(#[trigger] k1[t]).1 as int] == self.paths@[n as int].push(
                    k1[t].0,
                ) by {
                    assert(old(self).kids(n as int)[t] == k1[t]);
                }
            }
            assert forall|m: int, t: int|
                0 <= m < self.nodes@.len() && 0 <= t < self.kids(m).len() implies m < (#[trigger] self.kids(m)[t]).1
                < self.nodes@.len() by {
                if m != n {
                    assert(self.nodes@[m] == old(self).nodes@[m]);
                    assert(old(self).kids(m)[t] == self.kids(m)[t]);
                } else {
                    assert(self.kids(m)[t] == k1[t]);
                }
            }
            assert forall|m: int, t: int, v: int| 0 <= m < self.nodes@.len() && 0 <= t < v < self.kids(m).len() implies (
            #[trigger] self.kids(m)[t]).0 != (#[trigger] self.kids(m)[v]).0 by {
                if m != n {
                    assert(self.nodes@[m] == old(self).nodes@[m]);
                    assert(old(self).kids(m)[t] == self.kids(m)[t]);
                    assert(old(self).kids(m)[v] == self.kids(m)[v]);
                } else {
                    assert(self.kids(m)[t] == k1[t]);
                    assert(self.kids(m)[v] == k1[v]);
                }
            }
            assert forall|m: int, t: int| 0 <= m < self.nodes@.len() && 0 <= t < self.kids(m).len() implies self.paths@[(
            #[trigger] self.kids(m)[t]).1 as int] == self.paths@[m].push(self.kids(m)[t].0) by {
                if m != n {
                    assert(self.nodes@[m] == old(self).nodes@[m]);
                    assert(old(self).kids(m)[t] == self.kids(m)[t]);
                } else {
                    assert(self.kids(m)[t] == k1[t]);
                }
            }
            if exists|u: int| 0 <= u < self.kids(n as int).len() && (#[trigger] self.kids(n as int)[u]).0 == c {
                let u = choose|u: int| 0 <= u < self.kids(n as int).len() && (#[trigger] self.kids(n as int)[u]).0 == c;
                assert(k1[u].0 != c);
            }
            assert forall|d: char| d != c && old(self).child_of(n as int, d) is Some implies #[trigger] self.child_of(n as int, d)
                == old(self).child_of(n as int, d) by {
                let v = old(self).lemma_child_of_some(n as int, d);
                if has {
                    let u = choose|u: int| 0 <= u < k0.len() && (#[trigger] k0[u]).0 == c;
                    let v1 = if v < u { v } else { v - 1 };
                    assert(v != u);
                    assert(k1[v1] == k0[v]);
                    self.lemma_child_of_at(n as int, v1);
                } else {
                    assert(k1[v] == k0[v]);
                    self.lemma_child_of_at(n as int, v);
                }
            }
        }
    }

    /// Removes `key` from the map and its end mark from the trie, pruning
    /// the nodes it leaves empty; returns whether it was a key.
    pub fn delete(&mut self, key: &str) -> (r: bool)
        requires
            old(self).wf(),
        ensures
            final(self).wf(),
            r == old(self).keys_seq().contains(key@),
            !r ==> final(self).keys_seq() == old(self).keys_seq() && final(self).values_seq() == old(self).values_seq(),
            r ==> final(self).keys_seq() == old(self).keys_seq().remove(key_index(old(self).keys_seq(), key@))
                && final(self).values_seq() == old(self).values_seq().remove(key_index(old(self).keys_seq(), key@)),
            final(self).arena() == old(self).arena(),
    {
        if keys_index_of(&self.keys, key).is_none() {
            return false;
        }
        let cs = chars_of(key);
        self.prune(0, &cs, 0);
        let ghost s1 = *self;
        proof {
            assert(cs@.skip(0) =~= cs@);
        }
        match keys_shift_remove_full(&mut self.keys, key) {
            Some((i, _)) => {
                proof {
                    lemma_key_index(old(self).keys_seq(), i as int);
                    lemma_remove_distinct(old(self).keys_seq(), i as int);
                }
                self.values.remove(i);
                proof {
                    lemma_same_trie(s1, *self);
                    assert forall|k2: Seq<char>| #[trigger] self.keys_seq().contains(k2) implies self.walk(0, k2) is Some
                        && self.nodes@[self.walk(0, k2)->0].has_value by {
                        let j = choose|j: int| 0 <= j < self.keys_seq().len() && self.keys_seq()[j] == k2;
                        let ks = old(self).keys_seq();
                        if j < i {
                            assert(ks.remove(i as int)[j] == ks[j]);
                            assert(ks.contains(ks[j]));
                        } else {
                            assert(ks.remove(i as int)[j] == ks[j + 1]);
                            assert(ks.contains(ks[j + 1]));
                        }
                        assert(k2 != key@);
                        assert(old(self).keys_seq().contains(k2));
                        assert(s1.walk(0, k2) == old(self).walk(0, k2));
                        assert forall|m: int, d: char| 0 <= m < s1.nodes@.len() && s1.child_of(m, d) is Some implies #[trigger] self.child_of(
                            m,
                            d,
                        ) == s1.child_of(m, d) by {
                            assert(self.kids(m) == s1.kids(m));
                        }
                        lemma_walk_keep(s1, *self, 0, k2);
                    }
                }
                true
            },
            None => false,
        }
    }

    /// The keys under the trie node of `prefix` with their values: a key
    /// ending at a node comes before the keys below it, and the children of
    /// a node are visited from the last made to the first.
    pub fn find(&self, prefix: &str) -> (r: Vec<(String, &V)>)
        requires
            self.wf(),
        ensures
            forall|k: int|
                0 <= k < r@.len() ==> {
                    let e = #[trigger] r@[k];
                    &&& has_prefix(e.0@, prefix@)
                    &&& self.keys_seq().contains(e.0@)
                    &&& *e.1 == self.values_seq()[key_index(self.keys_seq(), e.0@)]
                },
            found_keys(r@) == (match self.walk(0, prefix@) {
                Some(m) => self.listed(m, prefix@),
                None => Seq::<Seq<char>>::empty(),
            }),
            forall|k: Seq<char>| #[trigger] self.keys_seq().contains(k) && has_prefix(k, prefix@) ==> found_keys(r@).contains(k),
            forall|k: Seq<char>|
                #[trigger] found_keys(r@).contains(k) <==> self.keys_seq().contains(k) && has_prefix(k, prefix@),
    {
        proof {
            assert forall|k: Seq<char>| #[trigger] self.keys_seq().contains(k) && has_prefix(k, prefix@) implies (match self.walk(
                0,
                prefix@,
            ) {
                Some(m) => self.listed(m, prefix@),
                None => Seq::<Seq<char>>::empty(),
            }).contains(k) by {
                let rest = k.skip(prefix@.len() as int);
                assert(prefix@ + rest =~= k);
                self.lemma_walk_concat(0, prefix@, rest);
                let m = self.walk(0, prefix@)->0;
                self.lemma_walk_path(0, prefix@);
                self.lemma_listing_has(m, prefix@, rest);
            }
        }
        let cs = chars_of(prefix);
        let mut node: usize = 0;
        let mut i: usize = 0;
        proof {
            assert(cs@.take(0) =~= Seq::<char>::empty());
        }
        while i < cs.len()
            invariant
                self.wf(),
                cs@ == prefix@,
                node < self.nodes@.len(),
                i <= cs@.len(),
                self.walk(0, cs@.take(i as int)) == Some(node as int),
                forall|k: Seq<char>| #[trigger] self.keys_seq().contains(k) && has_prefix(k, prefix@) ==> (match self.walk(
                    0,
                    prefix@,
                ) {
                    Some(m) => self.listed(m, prefix@),
                    None => Seq::<Seq<char>>::empty(),
                }).contains(k),
            decreases cs@.len() - i,
        {
            proof {
                assert(cs@.take(i + 1) =~= cs@.take(i as int) + seq![cs@[i as int]]);
                self.lemma_walk_concat(0, cs@.take(i as int), seq![cs@[i as int]]);
                assert(seq![cs@[i as int]].drop_first() =~= Seq::<char>::empty());
            }
            let ghost prev = node;
            match self.child(node, cs[i]) {
                Some(next) => {
                    node = next;
                    proof {
                        let one = seq![cs@[i as int]];
                        assert(one.len() == 1 && one[0] == cs@[i as int]);
                        assert(self.walk(next as int, one.drop_first()) == Some(next as int));
                        assert(self.walk(prev as int, one) == Some(next as int));
                    }
                },
                None => {
                    proof {
                        assert(cs@ =~= cs@.take(i + 1) + cs@.skip(i + 1));
                        self.lemma_walk_concat(0, cs@.take(i + 1), cs@.skip(i + 1));
                        assert(found_keys(Seq::<(String, &V)>::empty()) =~= Seq::<Seq<char>>::empty());
                    }
                    return Vec::new();
                },
            }
            i = i + 1;
        }
        let mut results: Vec<(String, &V)> = Vec::new();
        proof {
            assert(prefix@.take(prefix@.len() as int) =~= prefix@);
            assert(cs@.take(cs@.len() as int) =~= cs@);
            assert(found_keys(results@) =~= Seq::<Seq<char>>::empty());
        }
        self.collect(node, prefix.to_string(), Ghost(prefix@), &mut results);
        proof {
            assert(found_keys(results@) =~= self.listed(node as int, prefix@));
            assert forall|k: Seq<char>| #[trigger] found_keys(results@).contains(k) implies self.keys_seq().contains(k) && has_prefix(
                k,
                prefix@,
            ) by {
                let j = choose|j: int| 0 <= j < found_keys(results@).len() && found_keys(results@)[j] == k;
                assert(found_keys(results@)[j] == results@[j].0@);
            }
        }
        results
    }

    /// Appends the keys at and below node `n`, whose path spells `acc`.
    fn collect<'a>(&'a self, n: usize, acc: String, Ghost(p): Ghost<Seq<char>>, results: &mut Vec<(String, &'a V)>)
        requires
            self.wf(),
            n < self.nodes@.len(),
            has_prefix(acc@, p),
            forall|k: int|
                0 <= k < old(results)@.len() ==> {
                    let e = #[trigger] old(results)@[k];
                    &&& has_prefix(e.0@, p)
                    &&& self.keys_seq().contains(e.0@)
                    &&& *e.1 == self.values_seq()[key_index(self.keys_seq(), e.0@)]
                },
        ensures
            forall|k: int|
                0 <= k < final(results)@.len() ==> {
                    let e = #[trigger] final(results)@[k];
                    &&& has_prefix(e.0@, p)
                    &&& self.keys_seq().contains(e.0@)
                    &&& *e.1 == self.values_seq()[key_index(self.keys_seq(), e.0@)]
                },
            found_keys(final(results)@) == found_keys(old(results)@) + self.listing(n as int, acc@),
        decreases self.nodes@.len() - n,
    {
        let ghost r0 = found_keys(results@);
        let ghost own = if self.nodes@[n as int].has_value && self.keys_seq().contains(acc@) {
            seq![acc@]
        } else {
            Seq::<Seq<char>>::empty()
        };
        if self.nodes[n].has_value {
            match keys_index_of(&self.keys, acc.as_str()) {
                Some(i) => {
                    proof {
                        lemma_key_index(self.keys_seq(), i as int);
                    }
                    let ghost rb = results@;
                    results.push((acc.clone(), &self.values[i]));
                    proof {
                        assert(found_keys(results@) =~= found_keys(rb).push(acc@));
                    }
                },
                None => {},
            }
        }
        proof {
            assert(found_keys(results@) =~= r0 + own);
            assert(self.listing(n as int, acc@) == own + self.listing_kids(n as int, acc@, self.kids(n as int).len() as int));
        }
        let count = chars_len(&self.nodes[n].children);
        let mut t = count;
        while t > 0
            invariant
                self.wf(),
                n < self.nodes@.len(),
                count == self.kids(n as int).len(),
                t <= count,
                has_prefix(acc@, p),
                found_keys(results@) + self.listing_kids(n as int, acc@, t as int) == r0 + self.listing(n as int, acc@),
                forall|k: int|
                    0 <= k < results@.len() ==> {
                        let e = #[trigger] results@[k];
                        &&& has_prefix(e.0@, p)
                        &&& self.keys_seq().contains(e.0@)
                        &&& *e.1 == self.values_seq()[key_index(self.keys_seq(), e.0@)]
                    },
            decreases t,
        {
            t = t - 1;
            match chars_get_index(&self.nodes[n].children, t) {
                Some((c, next)) => {
                    proof {
                        assert(self.kids(n as int)[t as int] == (c, next));
                        assert(n < next < self.nodes@.len());
                    }
                    let mut deeper = acc.clone();
                    string_push(&mut deeper, c);
                    proof {
                        assert(deeper@.take(p.len() as int) =~= acc@.take(p.len() as int));
                    }
                    let ghost rb = found_keys(results@);
                    let ghost dv = deeper@;
                    self.collect(next, deeper, Ghost(p), results);
                    proof {
                        assert(self.listing_kids(n as int, acc@, t + 1) == self.listing(next as int, acc@.push(c))
                            + self.listing_kids(n as int, acc@, t as int));
                        assert(dv == acc@.push(c));
                        assert(found_keys(results@) + self.listing_kids(n as int, acc@, t as int) =~= rb
                            + self.listing_kids(n as int, acc@, t + 1));
                    }
                },
                None => {},
            }
        }
        proof {
            assert(found_keys(results@) + self.listing_kids(n as int, acc@, 0) =~= found_keys(results@));
        }
    }

    /// The positions of the keys that start with `prefix`, in order.
    fn prefix_positions(&self, prefix: &str) -> (r: Vec<usize>)
        requires
            self.wf(),
        ensures
            r@.len() == prefixed(self.keys_seq(), prefix@, self.keys_seq().len() as int).len(),
            forall|k: int|
                0 <= k < r@.len() ==> (#[trigger] r@[k]) as int == prefixed(
                    self.keys_seq(),
                    prefix@,
                    self.keys_seq().len() as int,
                )[k] && r@[k] < self.keys_seq().len(),
    {
        let pc = chars_of(prefix);
        let n = keys_len(&self.keys);
        let mut out: Vec<usize> = Vec::new();
        let mut i: usize = 0;
        while i < n
            invariant
                self.wf(),
                pc@ == prefix@,
                n == self.keys_seq().len(),
                i <= n,
                out@.len() == prefixed(self.keys_seq(), prefix@, i as int).len(),
                forall|k: int|
                    0 <= k < out@.len() ==> (#[trigger] out@[k]) as int == prefixed(self.keys_seq(), prefix@, i as int)[k]
                        && out@[k] < n,
            decreases n - i,
        {
            match keys_get_index(&self.keys, i) {
                Some(key) => {
                    let kc = chars_of(key.as_str());
                    let ghost o0 = out@;
                    if starts_with(&kc, &pc) {
                        out.push(i);
                    }
                    proof {
                        let ks = self.keys_seq();
                        assert(ks[i as int] == key@);
                        assert(prefixed(ks, prefix@, i + 1) == prefixed(ks, prefix@, i as int) + if has_prefix(
                            ks[i as int],
                            prefix@,
                        ) {
                            seq![i as int]
                        } else {
                            Seq::<int>::empty()
                        });
                        assert forall|k: int|
                            0 <= k < out@.len() implies (#[trigger] out@[k]) as int == prefixed(ks, prefix@, i + 1)[k]
                            && out@[k] < n by {
                            if k < o0.len() {
                                assert(out@[k] == o0[k]);
                            }
                        }
                    }
                },
                None => {},
            }
            i = i + 1;
        }
        out
    }

    /// The keys that start with `prefix`, in insertion order.
    pub fn keys_with_prefix(&self, prefix: &str) -> (r: Vec<&String>)
        requires
            self.wf(),
        ensures
            ({
                let pos = prefixed(self.keys_seq(), prefix@, self.keys_seq().len() as int);
                &&& r@.len() == pos.len()
                &&& forall|k: int| 0 <= k < r@.len() ==> (#[trigger] r@[k])@ == self.keys_seq()[pos[k]]
            }),
    {
        let positions = self.prefix_positions(prefix);
        let mut out: Vec<&String> = Vec::new();
        let mut k: usize = 0;
        while k < positions.len()
            invariant
                self.wf(),
                k <= positions@.len(),
                out@.len() == k,
                forall|j: int| 0 <= j < positions@.len() ==> (#[trigger] positions@[j]) < self.keys_seq().len(),
                forall|j: int| 0 <= j < k ==> (#[trigger] out@[j])@ == self.keys_seq()[positions@[j] as int],
            decreases positions@.len() - k,
        {
            match keys_get_index(&self.keys, positions[k]) {
                Some(key) => {
                    out.push(key);
                },
                None => {
                    proof {
                        assert(positions@[k as int] < self.keys_seq().len());
                    }
                },
            }
            k = k + 1;
        }
        out
    }

    /// The values of the keys that start with `prefix`, in insertion order.
    pub fn values_with_prefix(&self, prefix: &str) -> (r: Vec<&V>)
        requires
            self.wf(),
        ensures
            ({
                let pos = prefixed(self.keys_seq(), prefix@, self.keys_seq().len() as int);
                &&& r@.len() == pos.len()
                &&& forall|k: int| 0 <= k < r@.len() ==> *(#[trigger] r@[k]) == self.values_seq()[pos[k]]
            }),
    {
        let positions = self.prefix_positions(prefix);
        let mut out: Vec<&V> = Vec::new();
        let mut k: usize = 0;
        while k < positions.len()
            invariant
                self.wf(),
                k <= positions@.len(),
                out@.len() == k,
                forall|j: int| 0 <= j < positions@.len() ==> (#[trigger] positions@[j]) < self.keys_seq().len(),
                forall|j: int| 0 <= j < k ==> *(#[trigger] out@[j]) == self.values_seq()[positions@[j] as int],
            decreases positions@.len() - k,
        {
            proof {
                assert(positions@[k as int] < self.keys_seq().len());
            }
            out.push(&self.values[positions[k]]);
            k = k + 1;
        }
        out
    }

    /// The keys that start with `prefix` with their values, in insertion
    /// order.
    pub fn entries_with_prefix(&self, prefix: &str) -> (r: Vec<(&String, &V)>)
        requires
            self.wf(),
        ensures
            ({
                let pos = prefixed(self.keys_seq(), prefix@, self.keys_seq().len() as int);
                &&& r@.len() == pos.len()
                &&& forall|k: int|
                    0 <= k < r@.len() ==> (#[trigger] r@[k]).0@ == self.keys_seq()[pos[k]] && *r@[k].1
                        == self.values_seq()[pos[k]]
            }),
    {
        let positions = self.prefix_positions(prefix);
        let mut out: Vec<(&String, &V)> = Vec::new();
        let mut k: usize = 0;
        while k < positions.len()
            invariant
                self.wf(),
                k <= positions@.len(),
                out@.len() == k,
                forall|j: int| 0 <= j < positions@.len() ==> (#[trigger] positions@[j]) < self.keys_seq().len(),
                forall|j: int|
                    0 <= j < k ==> (#[trigger] out@[j]).0@ == self.keys_seq()[positions@[j] as int] && *out@[j].1
                        == self.values_seq()[positions@[j] as int],
            decreases positions@.len() - k,
        {
            proof {
                assert(positions@[k as int] < self.keys_seq().len());
            }
            match keys_get_index(&self.keys, positions[k]) {
                Some(key) => {
                    out.push((key, &self.values[positions[k]]));
                },
                None => {},
            }
            k = k + 1;
        }
        out
    }

    /// The keys, in insertion order.
    pub fn keys(&self) -> (r: Vec<&String>)
        requires
            self.wf(),
        ensures
            r@.len() == self.keys_seq().len(),
            forall|k: int| 0 <= k < r@.len() ==> (#[trigger] r@[k])@ == self.keys_seq()[k],
    {
        let n = keys_len(&self.keys);
        let mut out: Vec<&String> = Vec::new();
        let mut i: usize = 0;
        while i < n
            invariant
                n == self.keys_seq().len(),
                i <= n,
                out@.len() == i,
                forall|k: int| 0 <= k < i ==> (#[trigger] out@[k])@ == self.keys_seq()[k],
            decreases n - i,
        {
            match keys_get_index(&self.keys, i) {
                Some(k) => out.push(k),
                None => {},
            }
            i = i + 1;
        }
        out
    }

    /// The keys, in insertion order: every key is also a prefix the trie
    /// stores.
    pub fn prefixes(&self) -> (r: Vec<&String>)
        requires
            self.wf(),
        ensures
            r@.len() == self.keys_seq().len(),
            forall|k: int| 0 <= k < r@.len() ==> (#[trigger] r@[k])@ == self.keys_seq()[k],
    {
        self.keys()
    }

    /// The values, in the order of their keys.
    pub fn values(&self) -> (r: Vec<&V>)
        ensures
            r@.len() == self.values_seq().len(),
            forall|k: int| 0 <= k < r@.len() ==> *r@[k] == self.values_seq()[k],
    {
        let mut out: Vec<&V> = Vec::new();
        let mut i: usize = 0;
        while i < self.values.len()
            invariant
                i <= self.values@.len(),
                out@.len() == i,
                forall|k: int| 0 <= k < i ==> *out@[k] == self.values_seq()[k],
            decreases self.values@.len() - i,
        {
            out.push(&self.values[i]);
            i = i + 1;
        }
        out
    }

    /// The keys with their values, in insertion order.
    pub fn entries(&self) -> (r: Vec<(&String, &V)>)
        requires
            self.wf(),
        ensures
            r@.len() == self.keys_seq().len(),
            forall|k: int|
                0 <= k < r@.len() ==> (#[trigger] r@[k]).0@ == self.keys_seq()[k] && *r@[k].1 == self.values_seq()[k],
    {
        let n = self.values.len();
        let mut out: Vec<(&String, &V)> = Vec::new();
        let mut i: usize = 0;
        while i < n
            invariant
                self.wf(),
                n == self.values@.len(),
                i <= n,
                out@.len() == i,
                forall|k: int|
                    0 <= k < i ==> (#[trigger] out@[k]).0@ == self.keys_seq()[k] && *out@[k].1 == self.values_seq()[k],
            decreases n - i,
        {
            match keys_get_index(&self.keys, i) {
                Some(k) => out.push((k, &self.values[i])),
                None => {},
            }
            i = i + 1;
        }
        out
    }
}

} // verus!
