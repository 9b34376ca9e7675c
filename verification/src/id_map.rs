//! Maps between integers, kept by `indexmap::IndexMap`, used to number
//! things in order of first appearance.
use vstd::prelude::*;
use indexmap::{IndexMap, IndexSet};

verus! {

/// The map type of the `indexmap` crate, carried through opaquely.
#[verifier::external_type_specification]
#[verifier::external_body]
#[verifier::reject_recursive_types(K)]
#[verifier::reject_recursive_types(V)]
#[verifier::reject_recursive_types(S)]
pub struct ExIndexMap<K, V, S>(IndexMap<K, V, S>);

/// A map from integers to integers.
pub type IdMap = IndexMap<usize, usize>;

/// The entries of a map from integers to integers.
pub uninterp spec fn id_entries(m: IdMap) -> Map<usize, usize>;

/// The map without entries.
pub open spec fn no_ids() -> Map<usize, usize> {
    Map::empty()
}

/// `IndexMap::new`: an empty map.
#[verifier::external_body]
pub(crate) fn ids_new() -> (r: IdMap)
    ensures
        id_entries(r) == no_ids(),
{
    IndexMap::new()
}

/// `IndexMap::len`: the number of entries.
#[verifier::external_body]
pub(crate) fn ids_len(m: &IdMap) -> (r: usize)
    ensures
        r == id_entries(*m).dom().len(),
{
    m.len()
}

/// `IndexMap::get`: the value of `key`, if it has one.
#[verifier::external_body]
pub(crate) fn ids_get(m: &IdMap, key: usize) -> (r: Option<usize>)
    ensures
        id_entries(*m).dom().contains(key) ==> r == Some(id_entries(*m)[key]),
        !id_entries(*m).dom().contains(key) ==> r is None,
{
    m.get(&key).copied()
}

/// `IndexMap::insert`: maps `key` to `value`, handing back the value it
/// had.
#[verifier::external_body]
pub(crate) fn ids_insert(m: &mut IdMap, key: usize, value: usize) -> (r: Option<usize>)
    ensures
        id_entries(*final(m)) == id_entries(*old(m)).insert(key, value),
        id_entries(*old(m)).dom().contains(key) ==> r == Some(id_entries(*old(m))[key]),
        !id_entries(*old(m)).dom().contains(key) ==> r is None,
{
    m.insert(key, value)
}

/// The members of a set of integers, in insertion order.
pub uninterp spec fn index_order(s: IndexSet<usize>) -> Seq<usize>;

/// `IndexSet::new`: an empty set.
#[verifier::external_body]
pub(crate) fn indexes_new() -> (r: IndexSet<usize>)
    ensures
        index_order(r) == Seq::<usize>::empty(),
{
    IndexSet::new()
}

/// `IndexSet::len`: the number of members.
#[verifier::external_body]
pub(crate) fn indexes_len(s: &IndexSet<usize>) -> (r: usize)
    ensures
        r == index_order(*s).len(),
{
    s.len()
}

/// `IndexSet::clear`: removes every member.
#[verifier::external_body]
pub(crate) fn indexes_clear(s: &mut IndexSet<usize>)
    ensures
        index_order(*final(s)) == Seq::<usize>::empty(),
{
    s.clear()
}

/// `IndexSet::contains`: whether `x` is a member.
#[verifier::external_body]
pub(crate) fn indexes_contains(s: &IndexSet<usize>, x: usize) -> (r: bool)
    ensures
        r == index_order(*s).contains(x),
{
    s.contains(&x)
}

/// `IndexSet::insert`: adds `x` last unless it is a member already, and
/// says whether it was added.
#[verifier::external_body]
pub(crate) fn indexes_insert(s: &mut IndexSet<usize>, x: usize) -> (r: bool)
    ensures
        r == !index_order(*old(s)).contains(x),
        r ==> index_order(*final(s)) == index_order(*old(s)).push(x),
        !r ==> index_order(*final(s)) == index_order(*old(s)),
{
    s.insert(x)
}

/// `IndexSet::get_index`: the member at index `i`, if there is one.
#[verifier::external_body]
pub(crate) fn indexes_get(s: &IndexSet<usize>, i: usize) -> (r: Option<usize>)
    ensures
        r is Some <==> i < index_order(*s).len(),
        r matches Some(x) ==> x == index_order(*s)[i as int],
{
    s.get_index(i).copied()
}

/// A map from characters to node positions, in insertion order.
pub type CharMap = IndexMap<char, usize>;

/// The entries of a map from characters, in insertion order.
pub uninterp spec fn char_entries(m: CharMap) -> Seq<(char, usize)>;

/// No entries.
pub open spec fn no_char_entries() -> Seq<(char, usize)> {
    Seq::empty()
}

/// `IndexMap::new`: an empty map.
#[verifier::external_body]
pub(crate) fn chars_new() -> (r: CharMap)
    ensures
        char_entries(r) == no_char_entries(),
{
    IndexMap::new()
}

/// `IndexMap::len`: the number of entries.
#[verifier::external_body]
pub(crate) fn chars_len(m: &CharMap) -> (r: usize)
    ensures
        r == char_entries(*m).len(),
{
    m.len()
}

/// `IndexMap::get`: the value of the entry of `c`, if there is one.
#[verifier::external_body]
pub(crate) fn chars_get(m: &CharMap, c: char) -> (r: Option<usize>)
    ensures
        r is None <==> forall|i: int| 0 <= i < char_entries(*m).len() ==> (#[trigger] char_entries(*m)[i]).0 != c,
        r matches Some(v) ==> exists|i: int| 0 <= i < char_entries(*m).len() && #[trigger] char_entries(*m)[i] == (c, v),
{
    m.get(&c).copied()
}

/// `IndexMap::insert`: a character without an entry gets one last; the
/// entry of a character that has one takes the new value in place, and
/// the old value comes back.
#[verifier::external_body]
pub(crate) fn chars_insert(m: &mut CharMap, c: char, v: usize) -> (r: Option<usize>)
    ensures
        (forall|i: int| 0 <= i < char_entries(*old(m)).len() ==> (#[trigger] char_entries(*old(m))[i]).0 != c) ==> r is None
            && char_entries(*final(m)) == char_entries(*old(m)).push((c, v)),
        forall|i: int|
            0 <= i < char_entries(*old(m)).len() && (#[trigger] char_entries(*old(m))[i]).0 == c ==> r == Some(
                char_entries(*old(m))[i].1,
            ) && char_entries(*final(m)) == char_entries(*old(m)).update(i, (c, v)),
{
    m.insert(c, v)
}

/// `IndexMap::shift_remove`: removes the entry of `c`, shifting the later
/// entries down, and hands back its value.
#[verifier::external_body]
pub(crate) fn chars_shift_remove(m: &mut CharMap, c: char) -> (r: Option<usize>)
    ensures
        (forall|i: int| 0 <= i < char_entries(*old(m)).len() ==> (#[trigger] char_entries(*old(m))[i]).0 != c) ==> r is None
            && char_entries(*final(m)) == char_entries(*old(m)),
        forall|i: int|
            0 <= i < char_entries(*old(m)).len() && (#[trigger] char_entries(*old(m))[i]).0 == c ==> r == Some(
                char_entries(*old(m))[i].1,
            ) && char_entries(*final(m)) == char_entries(*old(m)).remove(i),
{
    m.shift_remove(&c)
}

/// `IndexMap::get_index`: the entry at position `i`, if there is one.
#[verifier::external_body]
pub(crate) fn chars_get_index(m: &CharMap, i: usize) -> (r: Option<(char, usize)>)
    ensures
        r is Some <==> i < char_entries(*m).len(),
        r matches Some(e) ==> e == char_entries(*m)[i as int],
{
    match m.get_index(i) {
        Some((c, v)) => Some((*c, *v)),
        None => None,
    }
}

} // verus!
