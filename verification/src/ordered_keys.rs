//! Insertion-ordered sets of string keys, kept by `indexmap::IndexSet`.
//!
//! The maps of this library keep their keys in such a set and their values
//! in a vector alongside, at the same positions.
use vstd::prelude::*;
use indexmap::IndexSet;

verus! {

/// The set type of the `indexmap` crate, carried through opaquely.
#[verifier::external_type_specification]
#[verifier::external_body]
#[verifier::reject_recursive_types(T)]
#[verifier::reject_recursive_types(S)]
pub struct ExIndexSet<T, S>(IndexSet<T, S>);

/// The keys of a set, in insertion order.
pub uninterp spec fn key_order(s: IndexSet<String>) -> Seq<Seq<char>>;

/// `IndexSet::new`: an empty set.
#[verifier::external_body]
pub(crate) fn keys_new() -> (r: IndexSet<String>)
    ensures
        key_order(r) == Seq::<Seq<char>>::empty(),
{
    IndexSet::new()
}

/// `IndexSet::len`: the number of keys, which is also the number of
/// distinct keys since a set holds each key at most once.
#[verifier::external_body]
pub(crate) fn keys_len(s: &IndexSet<String>) -> (r: usize)
    ensures
        r == key_order(*s).len(),
        r == key_order(*s).to_set().len(),
{
    s.len()
}

/// `IndexSet::clear`: removes every key.
#[verifier::external_body]
pub(crate) fn keys_clear(s: &mut IndexSet<String>)
    ensures
        key_order(*final(s)) == Seq::<Seq<char>>::empty(),
{
    s.clear()
}

/// `IndexSet::insert_full`: a key not yet in the set goes last and its
/// index comes back with `true`; for a key already there the set is left
/// unchanged and the index of that key comes back with `false`.
#[verifier::external_body]
pub(crate) fn keys_insert_full(s: &mut IndexSet<String>, key: String) -> (r: (usize, bool))
    ensures
        r.1 == !key_order(*old(s)).contains(key@),
        r.1 ==> key_order(*final(s)) == key_order(*old(s)).push(key@) && r.0 == key_order(*old(s)).len(),
        !r.1 ==> key_order(*final(s)) == key_order(*old(s)) && r.0 < key_order(*old(s)).len() && key_order(
            *old(s),
        )[r.0 as int] == key@,
{
    s.insert_full(key)
}

/// `IndexSet::get_index_of`: the index of `key`, if it is in the set.
#[verifier::external_body]
pub(crate) fn keys_index_of(s: &IndexSet<String>, key: &str) -> (r: Option<usize>)
    ensures
        r is None <==> !key_order(*s).contains(key@),
        r matches Some(i) ==> i < key_order(*s).len() && key_order(*s)[i as int] == key@,
{
    s.get_index_of(key)
}

/// `IndexSet::shift_remove_full`: removes `key`, shifting the keys after
/// it down by one, and returns its index and the key; nothing when it is
/// not in the set.
#[verifier::external_body]
pub(crate) fn keys_shift_remove_full(s: &mut IndexSet<String>, key: &str) -> (r: Option<(usize, String)>)
    ensures
        r is None <==> !key_order(*old(s)).contains(key@),
        r is None ==> key_order(*final(s)) == key_order(*old(s)),
        r matches Some(p) ==> p.0 < key_order(*old(s)).len() && key_order(*old(s))[p.0 as int] == key@ && p.1@
            == key@ && key_order(*final(s)) == key_order(*old(s)).remove(p.0 as int),
{
    s.shift_remove_full(key)
}

/// `IndexSet::get_index`: the key at index `i`, if there is one.
#[verifier::external_body]
pub(crate) fn keys_get_index(s: &IndexSet<String>, i: usize) -> (r: Option<&String>)
    ensures
        r is Some <==> i < key_order(*s).len(),
        r matches Some(k) ==> k@ == key_order(*s)[i as int],
{
    s.get_index(i)
}

/// `IndexSet::clone`: a set with the same keys in the same order.
#[verifier::external_body]
pub(crate) fn keys_clone(s: &IndexSet<String>) -> (r: IndexSet<String>)
    ensures
        key_order(r) == key_order(*s),
{
    s.clone()
}

} // verus!
