//! Ordering of (word, distance) results: by distance, then by word.
use vstd::prelude::*;
use crate::seq_facts::lemma_insert_multiset;
use crate::text::{
    chars_less, chars_of, lemma_seq_less_irreflexive, lemma_seq_less_total,
    lemma_seq_less_transitive, seq_less,
};

verus! {

/// The mathematical value of a result entry.
pub open spec fn entry_view(e: (String, usize)) -> (Seq<char>, nat) {
    (e.0@, e.1 as nat)
}

/// The views of a sequence of result entries.
pub open spec fn entries_view(s: Seq<(String, usize)>) -> Seq<(Seq<char>, nat)> {
    s.map_values(|e: (String, usize)| entry_view(e))
}

/// Strict order on result values: smaller distance first, then the word.
pub open spec fn entry_less(a: (Seq<char>, nat), b: (Seq<char>, nat)) -> bool {
    a.1 < b.1 || (a.1 == b.1 && seq_less(a.0, b.0))
}

/// A sequence of result values in non-decreasing order.
pub open spec fn entries_sorted(s: Seq<(Seq<char>, nat)>) -> bool {
    forall|i: int, j: int| 0 <= i < j < s.len() ==> !entry_less(#[trigger] s[j], #[trigger] s[i])
}

/// The result order is a strict total order.
pub proof fn lemma_entry_order(a: (Seq<char>, nat), b: (Seq<char>, nat), c: (Seq<char>, nat))
    ensures
        !entry_less(a, a),
        entry_less(a, b) ==> !entry_less(b, a),
        a != b ==> entry_less(a, b) || entry_less(b, a),
        entry_less(a, b) && entry_less(b, c) ==> entry_less(a, c),
{
    lemma_seq_less_irreflexive(a.0);
    lemma_seq_less_total(a.0, b.0);
    if seq_less(a.0, b.0) && seq_less(b.0, c.0) {
        lemma_seq_less_transitive(a.0, b.0, c.0);
    }
}

/// Whether the entry `a` comes strictly before `b`.
fn entry_before(a: &(String, usize), b: &(String, usize)) -> (r: bool)
    ensures
        r == entry_less(entry_view(*a), entry_view(*b)),
{
    if a.1 < b.1 {
        true
    } else if a.1 > b.1 {
        false
    } else {
        let ca = chars_of(a.0.as_str());
        let cb = chars_of(b.0.as_str());
        chars_less(&ca, &cb)
    }
}

/// Sorts result entries by distance and then word, keeping them all.
pub fn sort_entries(v: Vec<(String, usize)>) -> (r: Vec<(String, usize)>)
    ensures
        entries_view(r@).to_multiset() == entries_view(v@).to_multiset(),
        entries_sorted(entries_view(r@)),
{
    let mut out: Vec<(String, usize)> = Vec::new();
    let mut i: usize = 0;
    proof {
        assert(entries_view(out@) =~= entries_view(v@).take(0));
    }
    while i < v.len()
        invariant
            i <= v@.len(),
            entries_view(out@).to_multiset() == entries_view(v@).take(i as int).to_multiset(),
            entries_sorted(entries_view(out@)),
        decreases v@.len() - i,
    {
        let x = (v[i].0.clone(), v[i].1);
        let mut pos: usize = 0;
        while pos < out.len() && !entry_before(&x, &out[pos])
            invariant
                pos <= out@.len(),
                forall|j: int| 0 <= j < pos ==> !entry_less(entry_view(x), #[trigger] entry_view(out@[j])),
            decreases out@.len() - pos,
        {
            pos = pos + 1;
        }
        let ghost old_view = entries_view(out@);
        out.insert(pos, x);
        proof {
            let xv = entry_view(x);
            let nv = entries_view(out@);
            assert(nv =~= old_view.insert(pos as int, xv));
            lemma_insert_multiset(old_view, pos as int, xv);
            assert(entries_view(v@).take(i + 1) =~= entries_view(v@).take(i as int).push(xv));
            assert(entries_view(v@).take(i as int).push(xv).to_multiset() =~= entries_view(v@).take(
                i as int,
            ).to_multiset().insert(xv)) by {
                broadcast use vstd::seq_lib::group_to_multiset_ensures;
            }
            assert forall|a: int, b: int| 0 <= a < b < nv.len() implies !entry_less(
                #[trigger] nv[b],
                #[trigger] nv[a],
            ) by {
                if a < pos && b < pos {
                    assert(nv[a] == old_view[a] && nv[b] == old_view[b]);
                } else if a > pos && b > pos {
                    assert(nv[a] == old_view[a - 1] && nv[b] == old_view[b - 1]);
                } else if a < pos && b == pos {
                    assert(nv[a] == old_view[a]);
                    lemma_entry_order(xv, nv[a], nv[a]);
                } else if a < pos && b > pos {
                    assert(nv[a] == old_view[a] && nv[b] == old_view[b - 1]);
                    lemma_entry_order(old_view[b - 1], old_view[a], old_view[a]);
                } else {
                    // a == pos < b: x is before out[pos] and out[pos] is not after out[b - 1]
                    assert(nv[b] == old_view[b - 1]);
                    assert(pos < old_view.len());
                    assert(entry_less(xv, old_view[pos as int]));
                    lemma_entry_order(old_view[b - 1], xv, old_view[pos as int]);
                    lemma_entry_order(xv, old_view[pos as int], old_view[b - 1]);
                    if pos as int != b - 1 {
                        assert(!entry_less(old_view[b - 1], old_view[pos as int]));
                    }
                }
            }
        }
        i = i + 1;
    }
    proof {
        assert(entries_view(v@).take(v@.len() as int) =~= entries_view(v@));
    }
    out
}

} // verus!
