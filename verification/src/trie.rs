//! A set of strings kept in lexicographic order, answering prefix queries.
use vstd::prelude::*;
use crate::suffix_array::starts_with;
use crate::text::{chars_less, chars_of, lemma_seq_less_total, lemma_seq_less_transitive, seq_less};

verus! {

/// The character sequences of a sequence of strings.
pub open spec fn string_views(s: Seq<String>) -> Seq<Seq<char>> {
    s.map_values(|x: String| x@)
}

/// The entries of `s` are in strictly increasing lexicographic order.
pub open spec fn strictly_sorted(s: Seq<Seq<char>>) -> bool {
    forall|i: int, j: int| 0 <= i < j < s.len() ==> seq_less(#[trigger] s[i], #[trigger] s[j])
}

/// A set of words, listed in lexicographic order.
#[derive(Debug, Clone)]
pub struct Trie {
    words: Vec<String>,
    chars: Vec<Vec<char>>,
}

impl View for Trie {
    type V = Seq<Seq<char>>;

    /// The words in increasing order.
    closed spec fn view(&self) -> Seq<Seq<char>> {
        string_views(self.words@)
    }
}

impl Trie {
    /// The word list is sorted, and the character lists mirror it.
    pub closed spec fn wf(&self) -> bool {
        &&& self.chars@.len() == self.words@.len()
        &&& forall|i: int| 0 <= i < self.words@.len() ==> (#[trigger] self.chars@[i])@ == self.words@[i]@
        &&& strictly_sorted(self@)
    }

    /// A sorted list holds no word twice.
    pub proof fn lemma_no_duplicates(&self)
        requires
            self.wf(),
        ensures
            self@.no_duplicates(),
    {
        assert forall|i: int, j: int| 0 <= i < self@.len() && 0 <= j < self@.len() && i != j implies self@[i]
            != self@[j] by {
            if i < j {
                lemma_seq_less_total(self@[i], self@[j]);
            } else {
                lemma_seq_less_total(self@[j], self@[i]);
            }
        }
    }

    /// The words are listed in strictly increasing order.
    pub proof fn lemma_sorted(&self)
        requires
            self.wf(),
        ensures
            strictly_sorted(self@),
    {
    }

    /// An empty set.
    pub fn new() -> (r: Self)
        ensures
            r.wf(),
            r@ == Seq::<Seq<char>>::empty(),
    {
        let r = Trie { words: Vec::new(), chars: Vec::new() };
        assert(r@ =~= Seq::<Seq<char>>::empty());
        r
    }

    /// The number of words.
    pub fn size(&self) -> (r: usize)
        ensures
            r == self@.len(),
    {
        self.words.len()
    }

    /// Removes every word.
    pub fn clear(&mut self)
        ensures
            final(self).wf(),
            final(self)@ == Seq::<Seq<char>>::empty(),
    {
        self.words = Vec::new();
        self.chars = Vec::new();
        assert(self@ =~= Seq::<Seq<char>>::empty());
    }

    /// The first position whose word is not before `w`.
    fn lower_bound(&self, w: &Vec<char>) -> (pos: usize)
        requires
            self.wf(),
        ensures
            pos <= self@.len(),
            forall|i: int| 0 <= i < pos ==> seq_less(#[trigger] self@[i], w@),
            pos < self@.len() ==> !seq_less(self@[pos as int], w@),
    {
        let mut pos: usize = 0;
        while pos < self.chars.len() && chars_less(&self.chars[pos], w)
            invariant
                self.wf(),
                pos <= self@.len(),
                forall|i: int| 0 <= i < pos ==> seq_less(#[trigger] self@[i], w@),
            decreases self@.len() - pos,
        {
            pos = pos + 1;
        }
        pos
    }

    /// Whether `w` sits at `pos`, given that `pos` is its lower bound.
    fn found_at(&self, w: &Vec<char>, pos: usize) -> (r: bool)
        requires
            self.wf(),
            pos <= self@.len(),
            forall|i: int| 0 <= i < pos ==> seq_less(#[trigger] self@[i], w@),
            pos < self@.len() ==> !seq_less(self@[pos as int], w@),
        ensures
            r == self@.contains(w@),
            r ==> pos < self@.len() && self@[pos as int] == w@,
            !r && pos < self@.len() ==> seq_less(w@, self@[pos as int]),
    {
        let r = pos < self.chars.len() && !chars_less(w, &self.chars[pos]);
        proof {
            if pos < self@.len() {
                lemma_seq_less_total(w@, self@[pos as int]);
            }
            if self@.contains(w@) {
                let j = choose|j: int| 0 <= j < self@.len() && self@[j] == w@;
                if j < pos {
                    lemma_seq_less_total(w@, w@);
                } else if j > pos {
                    lemma_seq_less_total(w@, w@);
                    assert(seq_less(self@[pos as int], self@[j]));
                }
            }
        }
        r
    }

    /// Adds `word`; returns whether it was new.
    pub fn add(&mut self, word: &str) -> (r: bool)
        requires
            old(self).wf(),
        ensures
            final(self).wf(),
            r == !old(self)@.contains(word@),
            final(self)@.to_set() == old(self)@.to_set().insert(word@),
    {
        let w = chars_of(word);
        let pos = self.lower_bound(&w);
        if self.found_at(&w, pos) {
            proof {
                assert(old(self)@.to_set().insert(word@) =~= old(self)@.to_set());
            }
            return false;
        }
        let ghost old_v = self@;
        self.words.insert(pos, word.to_owned());
        self.chars.insert(pos, w);
        proof {
            let nv = self@;
            assert(nv =~= old_v.insert(pos as int, word@));
            assert forall|i: int| 0 <= i < self.words@.len() implies (#[trigger] self.chars@[i])@ == self.words@[i]@ by {
                if i < pos {
                } else if i > pos {
                    assert(self.chars@[i] == old(self).chars@[i - 1]);
                    assert(self.words@[i] == old(self).words@[i - 1]);
                }
            }
            assert forall|i: int, j: int| 0 <= i < j < nv.len() implies seq_less(#[trigger] nv[i], #[trigger] nv[j]) by {
                if i < pos && j < pos {
                } else if i > pos && j > pos {
                    assert(nv[i] == old_v[i - 1] && nv[j] == old_v[j - 1]);
                } else if i < pos && j == pos {
                } else if i < pos {
                    assert(nv[j] == old_v[j - 1]);
                } else {
                    assert(nv[j] == old_v[j - 1]);
                    if j - 1 > pos {
                        lemma_seq_less_transitive(word@, old_v[pos as int], old_v[j - 1]);
                    }
                }
            }
            assert(nv.to_set() =~= old_v.to_set().insert(word@)) by {
                assert forall|x: Seq<char>| nv.to_set().contains(x) <==> old_v.to_set().insert(word@).contains(x) by {
                    if nv.contains(x) {
                        let k = choose|k: int| 0 <= k < nv.len() && nv[k] == x;
                        if k < pos {
                            assert(old_v[k] == x);
                        } else if k > pos {
                            assert(old_v[k - 1] == x);
                        }
                    }
                    if old_v.contains(x) {
                        let k = choose|k: int| 0 <= k < old_v.len() && old_v[k] == x;
                        if k < pos {
                            assert(nv[k] == x);
                        } else {
                            assert(nv[k + 1] == x);
                        }
                    }
                    if x == word@ {
                        assert(nv[pos as int] == x);
                    }
                }
            }
        }
        true
    }

    /// Whether `word` is held.
    pub fn has(&self, word: &str) -> (r: bool)
        requires
            self.wf(),
        ensures
            r == self@.contains(word@),
    {
        let w = chars_of(word);
        let pos = self.lower_bound(&w);
        self.found_at(&w, pos)
    }

    /// Removes `word`; returns whether it was held.
    pub fn delete(&mut self, word: &str) -> (r: bool)
        requires
            old(self).wf(),
        ensures
            final(self).wf(),
            r == old(self)@.contains(word@),
            final(self)@.to_set() == old(self)@.to_set().remove(word@),
    {
        let w = chars_of(word);
        let pos = self.lower_bound(&w);
        if !self.found_at(&w, pos) {
            proof {
                assert(old(self)@.to_set().remove(word@) =~= old(self)@.to_set());
            }
            return false;
        }
        proof {
            self.lemma_no_duplicates();
        }
        let ghost old_v = self@;
        self.words.remove(pos);
        self.chars.remove(pos);
        proof {
            let nv = self@;
            assert(nv =~= old_v.remove(pos as int));
            assert forall|i: int| 0 <= i < self.words@.len() implies (#[trigger] self.chars@[i])@ == self.words@[i]@ by {
                if i >= pos {
                    assert(self.chars@[i] == old(self).chars@[i + 1]);
                    assert(self.words@[i] == old(self).words@[i + 1]);
                }
            }
            assert forall|i: int, j: int| 0 <= i < j < nv.len() implies seq_less(#[trigger] nv[i], #[trigger] nv[j]) by {
                let i2 = if i < pos { i } else { i + 1 };
                let j2 = if j < pos { j } else { j + 1 };
                assert(nv[i] == old_v[i2] && nv[j] == old_v[j2]);
            }
            assert(nv.to_set() =~= old_v.to_set().remove(word@)) by {
                assert forall|x: Seq<char>| nv.to_set().contains(x) <==> old_v.to_set().remove(word@).contains(x) by {
                    if nv.contains(x) {
                        let k = choose|k: int| 0 <= k < nv.len() && nv[k] == x;
                        let k2 = if k < pos { k } else { k + 1 };
                        assert(old_v[k2] == x);
                        assert(k2 != pos);
                    }
                    if old_v.contains(x) && x != word@ {
                        let k = choose|k: int| 0 <= k < old_v.len() && old_v[k] == x;
                        assert(k != pos);
                        if k < pos {
                            assert(nv[k] == x);
                        } else {
                            assert(nv[k - 1] == x);
                        }
                    }
                }
            }
        }
        true
    }

    /// The words starting with `prefix`, in increasing order.
    pub fn find(&self, prefix: &str) -> (r: Vec<String>)
        requires
            self.wf(),
        ensures
            string_views(r@) == self@.filter(|w: Seq<char>| starts_with(w, prefix@)),
            strictly_sorted(string_views(r@)),
    {
        let p = chars_of(prefix);
        let mut out: Vec<String> = Vec::new();
        let mut i: usize = 0;
        while i < self.words.len()
            invariant
                self.wf(),
                p@ == prefix@,
                i <= self@.len(),
                string_views(out@) == self@.take(i as int).filter(|w: Seq<char>| starts_with(w, prefix@)),
                strictly_sorted(string_views(out@)),
                forall|a: int| 0 <= a < out@.len() ==> exists|j: int| 0 <= j < i && #[trigger] string_views(out@)[a] == self@[j],
            decreases self@.len() - i,
        {
            let keep = has_prefix(&self.chars[i], &p);
            proof {
                reveal_with_fuel(Seq::filter, 1);
                assert(self@.take(i + 1).drop_last() =~= self@.take(i as int));
            }
            if keep {
                let ghost o0 = string_views(out@);
                out.push(self.words[i].clone());
                proof {
                    assert(string_views(out@) =~= self@.take(i as int).filter(
                        |w: Seq<char>| starts_with(w, prefix@),
                    ).push(self@[i as int]));
                    assert(string_views(out@) =~= o0.push(self@[i as int]));
                    assert forall|a: int, b: int| 0 <= a < b < string_views(out@).len() implies seq_less(
                        #[trigger] string_views(out@)[a],
                        #[trigger] string_views(out@)[b],
                    ) by {
                        if b == o0.len() {
                            assert(o0[a] == string_views(out@)[a]);
                            let j = choose|j: int| 0 <= j < i && #[trigger] o0[a] == self@[j];
                            assert(seq_less(self@[j], self@[i as int]));
                        } else {
                            assert(o0[a] == string_views(out@)[a]);
                            assert(o0[b] == string_views(out@)[b]);
                        }
                    }
                    assert forall|a: int| 0 <= a < out@.len() implies exists|j: int|
                        0 <= j < i + 1 && #[trigger] string_views(out@)[a] == self@[j] by {
                        if a < o0.len() {
                            assert(o0[a] == string_views(out@)[a]);
                            let j = choose|j: int| 0 <= j < i && #[trigger] o0[a] == self@[j];
                            assert(string_views(out@)[a] == self@[j]);
                        } else {
                            assert(string_views(out@)[a] == self@[i as int]);
                        }
                    }
                }
            } else {
                proof {
                    assert forall|a: int| 0 <= a < out@.len() implies exists|j: int|
                        0 <= j < i + 1 && #[trigger] string_views(out@)[a] == self@[j] by {
                        let j = choose|j: int| 0 <= j < i && #[trigger] string_views(out@)[a] == self@[j];
                        assert(string_views(out@)[a] == self@[j]);
                    }
                }
            }
            i = i + 1;
        }
        proof {
            assert(self@.take(self@.len() as int) =~= self@);
        }
        out
    }

    /// All words, in increasing order.
    pub fn values(&self) -> (r: Vec<String>)
        requires
            self.wf(),
        ensures
            string_views(r@) == self@,
            strictly_sorted(string_views(r@)),
    {
        let mut out: Vec<String> = Vec::new();
        let mut i: usize = 0;
        while i < self.words.len()
            invariant
                i <= self@.len(),
                string_views(out@) == self@.take(i as int),
            decreases self@.len() - i,
        {
            let w = self.words[i].clone();
            let ghost old_out = out@;
            let ghost wv = w@;
            proof {
                assert(wv == self@[i as int]);
            }
            out.push(w);
            proof {
                assert(string_views(out@) =~= string_views(old_out).push(wv));
                assert(self@.take(i + 1) =~= self@.take(i as int).push(self@[i as int]));
            }
            i = i + 1;
        }
        proof {
            assert(self@.take(self@.len() as int) =~= self@);
        }
        out
    }

    /// All words, in increasing order.
    pub fn keys(&self) -> (r: Vec<String>)
        requires
            self.wf(),
        ensures
            string_views(r@) == self@,
    {
        self.values()
    }

    /// All words, in increasing order.
    pub fn prefixes(&self) -> (r: Vec<String>)
        requires
            self.wf(),
        ensures
            string_views(r@) == self@,
    {
        self.values()
    }

    /// The words starting with `prefix`, in increasing order.
    pub fn keys_with_prefix(&self, prefix: &str) -> (r: Vec<String>)
        requires
            self.wf(),
        ensures
            string_views(r@) == self@.filter(|w: Seq<char>| starts_with(w, prefix@)),
    {
        self.find(prefix)
    }

    /// A set holding the given words.
    pub fn from_iter(words: &[&str]) -> (r: Self)
        ensures
            r.wf(),
            r@.to_set() == words@.map_values(|w: &str| w@).to_set(),
            strictly_sorted(r@),
    {
        let mut trie = Trie::new();
        let mut i: usize = 0;
        proof {
            assert(trie@.to_set() =~= words@.take(0).map_values(|w: &str| w@).to_set());
        }
        while i < words.len()
            invariant
                i <= words@.len(),
                trie.wf(),
                trie@.to_set() == words@.take(i as int).map_values(|w: &str| w@).to_set(),
            decreases words@.len() - i,
        {
            trie.add(words[i]);
            i = i + 1;
            proof {
                let m = words@.take(i as int).map_values(|w: &str| w@);
                assert(m =~= words@.take(i - 1).map_values(|w: &str| w@).push(words@[i - 1]@));
                assert(m.to_set() =~= words@.take(i - 1).map_values(|w: &str| w@).to_set().insert(words@[i - 1]@)) by {
                    broadcast use vstd::seq_lib::group_seq_properties;
                }
            }
        }
        proof {
            assert(words@.take(words@.len() as int) =~= words@);
        }
        trie
    }
}

/// Whether `w` starts with `p`.
fn has_prefix(w: &Vec<char>, p: &Vec<char>) -> (r: bool)
    ensures
        r == starts_with(w@, p@),
{
    if p.len() > w.len() {
        return false;
    }
    let mut i: usize = 0;
    while i < p.len()
        invariant
            p@.len() <= w@.len(),
            i <= p@.len(),
            forall|t: int| 0 <= t < i ==> w@[t] == #[trigger] p@[t],
        decreases p@.len() - i,
    {
        if w[i] != p[i] {
            proof {
                assert(w@.take(p@.len() as int)[i as int] != p@[i as int]);
            }
            return false;
        }
        i = i + 1;
    }
    proof {
        assert(w@.take(p@.len() as int) =~= p@);
    }
    true
}

} // verus!
