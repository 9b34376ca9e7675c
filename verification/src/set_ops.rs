//! Operations on insertion-ordered sets of string keys.
use vstd::prelude::*;
use indexmap::IndexSet;
use crate::ordered_keys::{
    key_order, keys_clone, keys_get_index, keys_index_of, keys_insert_full, keys_len, keys_new,
};
use crate::std_wrappers::string_push;

verus! {

/// `acc` followed by the items of `s` it lacks, each once, in order.
pub open spec fn add_new(acc: Seq<Seq<char>>, s: Seq<Seq<char>>) -> Seq<Seq<char>>
    decreases s.len(),
{
    if s.len() == 0 {
        acc
    } else {
        let r = add_new(acc, s.drop_last());
        if r.contains(s.last()) {
            r
        } else {
            r.push(s.last())
        }
    }
}

/// The union of `seqs`, in order of first appearance.
pub open spec fn union_all(seqs: Seq<Seq<Seq<char>>>) -> Seq<Seq<char>>
    decreases seqs.len(),
{
    if seqs.len() == 0 {
        Seq::empty()
    } else {
        add_new(union_all(seqs.drop_last()), seqs.last())
    }
}

/// The items of `a` that `b` holds (`keep`) or lacks (`!keep`).
pub open spec fn filter_in(a: Seq<Seq<char>>, b: Seq<Seq<char>>, keep: bool) -> Seq<Seq<char>> {
    a.filter(|x: Seq<char>| b.contains(x) == keep)
}

/// The items of `a` held by every sequence of `seqs`.
pub open spec fn in_all(a: Seq<Seq<char>>, seqs: Seq<Seq<Seq<char>>>) -> Seq<Seq<char>> {
    a.filter(|x: Seq<char>| forall|k: int| 0 <= k < seqs.len() ==> (#[trigger] seqs[k]).contains(x))
}

/// The index of the first shortest among the first `n` sequences.
pub open spec fn smallest_index(seqs: Seq<Seq<Seq<char>>>, n: int) -> int
    decreases n,
{
    if n <= 1 {
        0
    } else {
        let k = smallest_index(seqs, n - 1);
        if seqs[n - 1].len() < seqs[k].len() {
            n - 1
        } else {
            k
        }
    }
}

/// One more item of `s` extends `add_new` as its definition says.
pub proof fn lemma_add_new_step(acc: Seq<Seq<char>>, s: Seq<Seq<char>>, i: int)
    requires
        0 <= i < s.len(),
    ensures
        add_new(acc, s.take(i + 1)) == if add_new(acc, s.take(i)).contains(s[i]) {
            add_new(acc, s.take(i))
        } else {
            add_new(acc, s.take(i)).push(s[i])
        },
{
    assert(s.take(i + 1).drop_last() =~= s.take(i));
}

/// One more item of `a` extends a filter as its definition says.
pub proof fn lemma_filter_step(a: Seq<Seq<char>>, p: spec_fn(Seq<char>) -> bool, i: int)
    requires
        0 <= i < a.len(),
    ensures
        a.take(i + 1).filter(p) == if p(a[i]) {
            a.take(i).filter(p).push(a[i])
        } else {
            a.take(i).filter(p)
        },
{
    reveal(Seq::filter);
    assert(a.take(i + 1).drop_last() =~= a.take(i));
}

/// Filtering keeps the items distinct and drawn from the sequence.
pub proof fn lemma_filter_distinct(a: Seq<Seq<char>>, p: spec_fn(Seq<char>) -> bool)
    requires
        a.no_duplicates(),
    ensures
        a.filter(p).no_duplicates(),
        forall|x: Seq<char>| a.filter(p).contains(x) <==> a.contains(x) && p(x),
    decreases a.len(),
{
    reveal(Seq::filter);
    broadcast use vstd::seq_lib::group_filter_ensures;

    if a.len() > 0 {
        let d = a.drop_last();
        assert(d.no_duplicates());
        lemma_filter_distinct(d, p);
        assert forall|x: Seq<char>| a.contains(x) <==> d.contains(x) || x == a.last() by {
            if a.contains(x) && x != a.last() {
                let j = choose|j: int| 0 <= j < a.len() && a[j] == x;
                assert(d[j] == x);
            }
            if d.contains(x) {
                let j = choose|j: int| 0 <= j < d.len() && d[j] == x;
                assert(a[j] == x);
            }
        }
        if p(a.last()) {
            let f = d.filter(p);
            assert(!d.contains(a.last()));
            let g = f.push(a.last());
            assert forall|i: int, j: int| 0 <= i < g.len() && 0 <= j < g.len() && i != j implies g[i] != g[j] by {
                if i == f.len() {
                    assert(f.contains(g[j]));
                } else if j == f.len() {
                    assert(f.contains(g[i]));
                }
            }
        }
    }
}

/// Items that `acc` lacks, distinct among themselves, are all appended.
pub proof fn lemma_add_new_fresh(acc: Seq<Seq<char>>, s: Seq<Seq<char>>)
    requires
        s.no_duplicates(),
        forall|x: Seq<char>| s.contains(x) ==> !acc.contains(x),
    ensures
        add_new(acc, s) == acc + s,
    decreases s.len(),
{
    if s.len() > 0 {
        let d = s.drop_last();
        assert forall|x: Seq<char>| d.contains(x) implies !acc.contains(x) by {
            let j = choose|j: int| 0 <= j < d.len() && d[j] == x;
            assert(s[j] == x);
        }
        lemma_add_new_fresh(acc, d);
        assert(s.contains(s.last()));
        if (acc + d).contains(s.last()) {
            let j = choose|j: int| 0 <= j < (acc + d).len() && (acc + d)[j] == s.last();
            if j >= acc.len() {
                assert(s[j - acc.len()] == s.last());
            }
        }
        assert(acc + d.push(s.last()) =~= acc + s);
    }
}

/// `add_new` keeps distinct items distinct, and holds exactly the items
/// of both.
pub proof fn lemma_add_new_contents(acc: Seq<Seq<char>>, s: Seq<Seq<char>>)
    requires
        acc.no_duplicates(),
    ensures
        add_new(acc, s).no_duplicates(),
        forall|x: Seq<char>| add_new(acc, s).contains(x) <==> acc.contains(x) || s.contains(x),
    decreases s.len(),
{
    if s.len() > 0 {
        let d = s.drop_last();
        lemma_add_new_contents(acc, d);
        let r = add_new(acc, d);
        assert forall|x: Seq<char>| s.contains(x) <==> d.contains(x) || x == s.last() by {
            if s.contains(x) && x != s.last() {
                let j = choose|j: int| 0 <= j < s.len() && s[j] == x;
                assert(d[j] == x);
            }
            if d.contains(x) {
                let j = choose|j: int| 0 <= j < d.len() && d[j] == x;
                assert(s[j] == x);
            }
        }
        if !r.contains(s.last()) {
            let g = r.push(s.last());
            assert forall|i: int, j: int| 0 <= i < g.len() && 0 <= j < g.len() && i != j implies g[i] != g[j] by {
                if i == r.len() {
                    assert(r.contains(g[j]));
                } else if j == r.len() {
                    assert(r.contains(g[i]));
                }
            }
            assert forall|x: Seq<char>| g.contains(x) <==> r.contains(x) || x == s.last() by {
                if g.contains(x) && x != s.last() {
                    let j = choose|j: int| 0 <= j < g.len() && g[j] == x;
                    assert(r[j] == x);
                }
                if r.contains(x) {
                    let j = choose|j: int| 0 <= j < r.len() && r[j] == x;
                    assert(g[j] == x);
                }
                if x == s.last() {
                    assert(g[r.len() as int] == x);
                }
            }
        }
    } else {
        assert forall|x: Seq<char>| !s.contains(x) by {
        }
    }
}

/// A set with the keys of `a` that `b` holds (`keep`) or lacks (`!keep`),
/// in the order of `a`.
pub(crate) fn filter_keys(a: &IndexSet<String>, b: &IndexSet<String>, keep: bool) -> (r: IndexSet<String>)
    ensures
        key_order(*a).no_duplicates(),
        key_order(r) == filter_in(key_order(*a), key_order(*b), keep),
{
    let n = keys_len(a);
    proof {
        key_order(*a).lemma_no_dup_set_cardinality();
    }
    let ghost ka = key_order(*a);
    let ghost kb = key_order(*b);
    let ghost p = |x: Seq<char>| kb.contains(x) == keep;
    let mut r = keys_new();
    let mut i: usize = 0;
    proof {
        reveal(Seq::filter);
        assert(ka.take(0) =~= Seq::<Seq<char>>::empty());
    }
    while i < n
        invariant
            n == ka.len(),
            ka == key_order(*a),
            kb == key_order(*b),
            ka.no_duplicates(),
            p == (|x: Seq<char>| kb.contains(x) == keep),
            i <= n,
            key_order(r) == ka.take(i as int).filter(p),
        decreases n - i,
    {
        proof {
            lemma_filter_step(ka, p, i as int);
            lemma_filter_distinct(ka.take(i as int), p);
            if ka.take(i as int).contains(ka[i as int]) {
                let j = choose|j: int| 0 <= j < i && ka.take(i as int)[j] == ka[i as int];
                assert(ka[j] == ka[i as int]);
            }
        }
        match keys_get_index(a, i) {
            Some(key) => {
                let held = keys_index_of(b, key.as_str()).is_some();
                if held == keep {
                    let _ = keys_insert_full(&mut r, key.clone());
                }
            },
            None => {},
        }
        i = i + 1;
    }
    proof {
        assert(ka.take(n as int) =~= ka);
    }
    r
}

/// The keys of `a` missing from `b`.
pub fn difference(a: &IndexSet<String>, b: &IndexSet<String>) -> (r: IndexSet<String>)
    ensures
        key_order(r) == filter_in(key_order(*a), key_order(*b), false),
{
    let na = keys_len(a);
    proof {
        key_order(*a).lemma_no_dup_set_cardinality();
    }
    if na == 0 {
        let r = keys_new();
        proof {
            reveal(Seq::filter);
            assert(key_order(*a) =~= Seq::<Seq<char>>::empty());
        }
        return r;
    }
    if keys_len(b) == 0 {
        let r = keys_clone(a);
        proof {
            let ka = key_order(*a);
            let p = |x: Seq<char>| key_order(*b).contains(x) == false;
            assert forall|i: int| 0 <= i <= ka.len() implies ka.take(i).filter(p) == ka.take(i) by {
                lemma_take_filter_all(ka, p, i);
            }
            assert(ka.take(ka.len() as int) =~= ka);
        }
        return r;
    }
    filter_keys(a, b, false)
}

/// A filter that keeps everything leaves a prefix whole.
proof fn lemma_take_filter_all(a: Seq<Seq<char>>, p: spec_fn(Seq<char>) -> bool, i: int)
    requires
        0 <= i <= a.len(),
        forall|j: int| 0 <= j < a.len() ==> p(#[trigger] a[j]),
    ensures
        a.take(i).filter(p) == a.take(i),
    decreases i,
{
    reveal(Seq::filter);
    if i > 0 {
        lemma_take_filter_all(a, p, i - 1);
        lemma_filter_step(a, p, i - 1);
        assert(a.take(i - 1).push(a[i - 1]) =~= a.take(i));
    }
}

/// Adds to `r` the keys of `b`, in order, that `r` lacks.
fn add_keys(r: &mut IndexSet<String>, b: &IndexSet<String>)
    ensures
        key_order(*final(r)) == add_new(key_order(*old(r)), key_order(*b)),
{
    let ghost kb = key_order(*b);
    let ghost k0 = key_order(*r);
    let n = keys_len(b);
    let mut i: usize = 0;
    proof {
        assert(kb.take(0) =~= Seq::<Seq<char>>::empty());
    }
    while i < n
        invariant
            n == kb.len(),
            kb == key_order(*b),
            i <= n,
            key_order(*r) == add_new(k0, kb.take(i as int)),
        decreases n - i,
    {
        proof {
            lemma_add_new_step(k0, kb, i as int);
        }
        match keys_get_index(b, i) {
            Some(key) => {
                let _ = keys_insert_full(r, key.clone());
            },
            None => {},
        }
        i = i + 1;
    }
    proof {
        assert(kb.take(n as int) =~= kb);
    }
}

/// The keys of every set, in order of first appearance; fewer than two
/// sets is an error.
pub fn union(sets: &[IndexSet<String>]) -> (r: Result<IndexSet<String>, String>)
    ensures
        sets@.len() < 2 <==> r is Err,
        r matches Err(e) ==> e@ == "mnemonist/Set.union: needs at least two arguments."@,
        r matches Ok(u) ==> key_order(u) == union_all(sets@.map_values(|s: IndexSet<String>| key_order(s))),
{
    if sets.len() < 2 {
        return Err("mnemonist/Set.union: needs at least two arguments.".to_string());
    }
    let ghost views = sets@.map_values(|s: IndexSet<String>| key_order(s));
    let mut result = keys_new();
    let mut i: usize = 0;
    proof {
        assert(views.take(0) =~= Seq::<Seq<Seq<char>>>::empty());
    }
    while i < sets.len()
        invariant
            views == sets@.map_values(|s: IndexSet<String>| key_order(s)),
            i <= sets@.len(),
            key_order(result) == union_all(views.take(i as int)),
        decreases sets@.len() - i,
    {
        add_keys(&mut result, &sets[i]);
        proof {
            assert(views.take(i + 1).drop_last() =~= views.take(i as int));
        }
        i = i + 1;
    }
    proof {
        assert(views.take(sets@.len() as int) =~= views);
    }
    Ok(result)
}

/// Adds the keys of `b` that `a` lacks, in order.
pub fn add(a: &mut IndexSet<String>, b: &IndexSet<String>)
    ensures
        key_order(*final(a)) == add_new(key_order(*old(a)), key_order(*b)),
{
    add_keys(a, b)
}

/// Removes the keys of `b` from `a`, keeping the order of the rest.
pub fn subtract(a: &mut IndexSet<String>, b: &IndexSet<String>)
    ensures
        key_order(*final(a)) == filter_in(key_order(*old(a)), key_order(*b), false),
{
    let r = filter_keys(a, b, false);
    *a = r;
}

/// Keeps in `a` only the keys that `b` holds, in order.
pub fn intersect(a: &mut IndexSet<String>, b: &IndexSet<String>)
    ensures
        key_order(*final(a)) == filter_in(key_order(*old(a)), key_order(*b), true),
{
    let r = filter_keys(a, b, true);
    *a = r;
}

/// The keys in exactly one of `a` and `b`: those of `a` first, then those
/// of `b`.
pub fn symmetric_difference(a: &IndexSet<String>, b: &IndexSet<String>) -> (r: IndexSet<String>)
    ensures
        key_order(r) == filter_in(key_order(*a), key_order(*b), false) + filter_in(key_order(*b), key_order(*a), false),
{
    let mut r = filter_keys(a, b, false);
    let tail = filter_keys(b, a, false);
    add_keys(&mut r, &tail);
    proof {
        let ka = key_order(*a);
        let kb = key_order(*b);
        let pa = |x: Seq<char>| kb.contains(x) == false;
        let pb = |x: Seq<char>| ka.contains(x) == false;
        lemma_filter_distinct(ka, pa);
        lemma_filter_distinct(kb, pb);
        lemma_add_new_fresh(ka.filter(pa), kb.filter(pb));
    }
    r
}

/// Makes `a` the keys in exactly one of `a` and `b`: those of `a` first,
/// then those of `b`.
pub fn disjunct(a: &mut IndexSet<String>, b: &IndexSet<String>)
    ensures
        key_order(*final(a)) == filter_in(key_order(*old(a)), key_order(*b), false) + filter_in(
            key_order(*b),
            key_order(*old(a)),
            false,
        ),
{
    let r = symmetric_difference(a, b);
    *a = r;
}

/// Whether every key of `a` is in `b`, answered at once as no when `a`
/// has more keys.
pub fn is_subset(a: &IndexSet<String>, b: &IndexSet<String>) -> (r: bool)
    ensures
        r == (key_order(*a).len() <= key_order(*b).len() && forall|i: int|
            0 <= i < key_order(*a).len() ==> key_order(*b).contains(#[trigger] key_order(*a)[i])),
{
    if keys_len(a) > keys_len(b) {
        return false;
    }
    let n = keys_len(a);
    let mut i: usize = 0;
    while i < n
        invariant
            n == key_order(*a).len(),
            i <= n,
            forall|k: int| 0 <= k < i ==> key_order(*b).contains(#[trigger] key_order(*a)[k]),
        decreases n - i,
    {
        match keys_get_index(a, i) {
            Some(key) => {
                if keys_index_of(b, key.as_str()).is_none() {
                    return false;
                }
            },
            None => {},
        }
        i = i + 1;
    }
    true
}

/// Whether every key of `b` is in `a`.
pub fn is_superset(a: &IndexSet<String>, b: &IndexSet<String>) -> (r: bool)
    ensures
        r == (key_order(*b).len() <= key_order(*a).len() && forall|i: int|
            0 <= i < key_order(*b).len() ==> key_order(*a).contains(#[trigger] key_order(*b)[i])),
{
    is_subset(b, a)
}

/// The number of keys of the smaller set held by the larger (of `a` when
/// both have as many).
pub fn intersection_size(a: &IndexSet<String>, b: &IndexSet<String>) -> (r: usize)
    ensures
        r == if key_order(*a).len() <= key_order(*b).len() {
            filter_in(key_order(*a), key_order(*b), true).len()
        } else {
            filter_in(key_order(*b), key_order(*a), true).len()
        },
{
    broadcast use vstd::seq_lib::group_filter_ensures;

    let r = if keys_len(a) <= keys_len(b) {
        filter_keys(a, b, true)
    } else {
        filter_keys(b, a, true)
    };
    keys_len(&r)
}

/// The number of keys in either set.
pub fn union_size(a: &IndexSet<String>, b: &IndexSet<String>) -> (r: usize)
    requires
        key_order(*a).len() + key_order(*b).len() <= usize::MAX,
    ensures
        r == key_order(*a).len() + key_order(*b).len() - if key_order(*a).len() <= key_order(*b).len() {
            filter_in(key_order(*a), key_order(*b), true).len()
        } else {
            filter_in(key_order(*b), key_order(*a), true).len()
        },
{
    broadcast use vstd::seq_lib::group_filter_ensures;

    let i = intersection_size(a, b);
    proof {
        key_order(*a).lemma_filter_len(|x: Seq<char>| key_order(*b).contains(x) == true);
        key_order(*b).lemma_filter_len(|x: Seq<char>| key_order(*a).contains(x) == true);
    }
    keys_len(a) + keys_len(b) - i
}

/// The keys of the first shortest set held by every set; none when a set
/// is empty; fewer than two sets is an error.
pub fn intersection(sets: &[IndexSet<String>]) -> (r: Result<IndexSet<String>, String>)
    ensures
        sets@.len() < 2 <==> r is Err,
        r matches Err(e) ==> e@ == "mnemonist/Set.intersection: needs at least two arguments."@,
        r matches Ok(u) ==> {
            let views = sets@.map_values(|s: IndexSet<String>| key_order(s));
            &&& (exists|k: int| 0 <= k < views.len() && #[trigger] views[k].len() == 0) ==> key_order(u).len() == 0
            &&& (forall|k: int| 0 <= k < views.len() ==> #[trigger] views[k].len() > 0) ==> key_order(u) == in_all(
                views[smallest_index(views, views.len() as int)],
                views,
            )
        },
{
    if sets.len() < 2 {
        return Err("mnemonist/Set.intersection: needs at least two arguments.".to_string());
    }
    let ghost views = sets@.map_values(|s: IndexSet<String>| key_order(s));
    let mut small: usize = 0;
    let mut i: usize = 0;
    while i < sets.len()
        invariant
            views == sets@.map_values(|s: IndexSet<String>| key_order(s)),
            2 <= sets@.len(),
            i <= sets@.len(),
            small < sets@.len(),
            i > 0 ==> small == smallest_index(views, i as int),
            forall|k: int| 0 <= k < i ==> #[trigger] views[k].len() > 0,
        decreases sets@.len() - i,
    {
        if keys_len(&sets[i]) == 0 {
            let r = keys_new();
            proof {
                assert(views[i as int].len() == 0);
            }
            return Ok(r);
        }
        if i == 0 || keys_len(&sets[i]) < keys_len(&sets[small]) {
            small = i;
        }
        i = i + 1;
    }
    let ghost ks = views[small as int];
    let ghost p = |x: Seq<char>| forall|k: int| 0 <= k < views.len() ==> (#[trigger] views[k]).contains(x);
    let mut result = keys_new();
    let n = keys_len(&sets[small]);
    let mut j: usize = 0;
    proof {
        key_order(sets@[small as int]).lemma_no_dup_set_cardinality();
        reveal(Seq::filter);
        assert(ks.take(0) =~= Seq::<Seq<char>>::empty());
        assert(ks.no_duplicates());
    }
    while j < n
        invariant
            views == sets@.map_values(|s: IndexSet<String>| key_order(s)),
            small < sets@.len(),
            ks == views[small as int],
            ks.no_duplicates(),
            n == ks.len(),
            p == (|x: Seq<char>| forall|k: int| 0 <= k < views.len() ==> (#[trigger] views[k]).contains(x)),
            j <= n,
            key_order(result) == ks.take(j as int).filter(p),
        decreases n - j,
    {
        proof {
            lemma_filter_step(ks, p, j as int);
            lemma_filter_distinct(ks.take(j as int), p);
            if ks.take(j as int).contains(ks[j as int]) {
                let t = choose|t: int| 0 <= t < j && ks.take(j as int)[t] == ks[j as int];
                assert(ks[t] == ks[j as int]);
            }
        }
        match keys_get_index(&sets[small], j) {
            Some(item) => {
                let mut all = true;
                let mut k: usize = 0;
                while k < sets.len()
                    invariant
                        views == sets@.map_values(|s: IndexSet<String>| key_order(s)),
                        k <= sets@.len(),
                        all == (forall|t: int| 0 <= t < k ==> (#[trigger] views[t]).contains(item@)),
                    decreases sets@.len() - k,
                {
                    proof {
                        assert(views[k as int] == key_order(sets@[k as int]));
                    }
                    if keys_index_of(&sets[k], item.as_str()).is_none() {
                        all = false;
                    }
                    k = k + 1;
                }
                if all {
                    let _ = keys_insert_full(&mut result, item.clone());
                }
            },
            None => {},
        }
        j = j + 1;
    }
    proof {
        assert(ks.take(n as int) =~= ks);
    }
    Ok(result)
}

/// The distinct characters of `s`, each as a one-character string, in
/// order of first appearance.
pub fn chars_set(s: &str) -> (r: IndexSet<String>)
    ensures
        key_order(r) == add_new(Seq::empty(), s@.map_values(|c: char| seq![c])),
{
    let ghost cs = s@.map_values(|c: char| seq![c]);
    let n = s.unicode_len();
    let mut r = keys_new();
    let mut i: usize = 0;
    proof {
        assert(cs.take(0) =~= Seq::<Seq<char>>::empty());
    }
    while i < n
        invariant
            n == s@.len(),
            cs == s@.map_values(|c: char| seq![c]),
            i <= n,
            key_order(r) == add_new(Seq::empty(), cs.take(i as int)),
        decreases n - i,
    {
        proof {
            lemma_add_new_step(Seq::empty(), cs, i as int);
        }
        let c = s.get_char(i);
        let mut one = String::new();
        string_push(&mut one, c);
        proof {
            assert(one@ =~= seq![c]);
        }
        let _ = keys_insert_full(&mut r, one);
        i = i + 1;
    }
    proof {
        assert(cs.take(n as int) =~= cs);
    }
    r
}

} // verus!
