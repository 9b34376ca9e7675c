//! An index from the words of documents to the documents.
use vstd::prelude::*;
use indexmap::IndexSet;
use crate::default_map::{key_index, lemma_key_index, lemma_push_distinct};
use crate::ordered_keys::{
    key_order, keys_clear, keys_clone, keys_get_index, keys_index_of, keys_insert_full, keys_len, keys_new,
};
use crate::set_ops::{filter_in, filter_keys, lemma_filter_distinct};
use crate::std_wrappers::{alphanumeric, char_is_alphanumeric, lowercase, str_to_lowercase, string_push};

verus! {

/// The runs of alphanumeric characters of `s`, and whether the last one is
/// still open at the end of `s`.
pub open spec fn scan_words(s: Seq<char>) -> (Seq<Seq<char>>, bool)
    decreases s.len(),
{
    if s.len() == 0 {
        (Seq::empty(), false)
    } else {
        let (r, open) = scan_words(s.drop_last());
        let c = s.last();
        if alphanumeric(c) {
            if open {
                (r.update(r.len() - 1, r.last().push(c)), true)
            } else {
                (r.push(seq![c]), true)
            }
        } else {
            (r, false)
        }
    }
}

/// The words of `s`: its runs of alphanumeric characters, lowercased.
pub open spec fn words_of(s: Seq<char>) -> Seq<Seq<char>> {
    scan_words(s).0.map_values(|w: Seq<char>| lowercase(w))
}

/// An open run is never empty.
proof fn lemma_scan_open(s: Seq<char>)
    ensures
        scan_words(s).1 ==> scan_words(s).0.len() > 0,
    decreases s.len(),
{
    if s.len() > 0 {
        lemma_scan_open(s.drop_last());
    }
}

/// The words of `text`, in order.
pub fn tokenize(text: &str) -> (r: Vec<String>)
    ensures
        r@.map_values(|s: String| s@) == words_of(text@),
{
    let n = text.unicode_len();
    let mut out: Vec<String> = Vec::new();
    let mut cur = String::new();
    let mut open = false;
    let mut i: usize = 0;
    proof {
        assert(text@.take(0) =~= Seq::<char>::empty());
    }
    while i < n
        invariant
            n == text@.len(),
            i <= n,
            open == scan_words(text@.take(i as int)).1,
            open ==> out@.map_values(|s: String| s@) == scan_words(text@.take(i as int)).0.drop_last().map_values(
                |w: Seq<char>| lowercase(w),
            ) && cur@ == scan_words(text@.take(i as int)).0.last(),
            !open ==> out@.map_values(|s: String| s@) == scan_words(text@.take(i as int)).0.map_values(
                |w: Seq<char>| lowercase(w),
            ),
        decreases n - i,
    {
        let c = text.get_char(i);
        let ghost t0 = text@.take(i as int);
        let ghost r0 = scan_words(t0).0;
        proof {
            assert(text@.take(i + 1).drop_last() =~= t0);
            assert(text@.take(i + 1).last() == c);
            lemma_scan_open(t0);
        }
        if char_is_alphanumeric(c) {
            if open {
                string_push(&mut cur, c);
                proof {
                    assert(scan_words(text@.take(i + 1)).0 == r0.update(r0.len() - 1, r0.last().push(c)));
                    assert(scan_words(text@.take(i + 1)).0.drop_last() =~= r0.drop_last());
                }
            } else {
                cur = String::new();
                string_push(&mut cur, c);
                open = true;
                proof {
                    assert(cur@ =~= seq![c]);
                    assert(scan_words(text@.take(i + 1)).0.drop_last() =~= r0);
                }
            }
        } else {
            if open {
                let w = str_to_lowercase(cur.as_str());
                let ghost o0 = out@;
                out.push(w);
                open = false;
                proof {
                    assert(out@.map_values(|s: String| s@) =~= o0.map_values(|s: String| s@).push(lowercase(r0.last())));
                    assert(r0 =~= r0.drop_last().push(r0.last()));
                    assert(r0.map_values(|w: Seq<char>| lowercase(w)) =~= r0.drop_last().map_values(
                        |w: Seq<char>| lowercase(w),
                    ).push(lowercase(r0.last())));
                }
            }
        }
        i = i + 1;
    }
    if open {
        let w = str_to_lowercase(cur.as_str());
        let ghost o0 = out@;
        let ghost r0 = scan_words(text@.take(n as int)).0;
        out.push(w);
        proof {
            lemma_scan_open(text@.take(n as int));
            assert(out@.map_values(|s: String| s@) =~= o0.map_values(|s: String| s@).push(lowercase(r0.last())));
            assert(r0 =~= r0.drop_last().push(r0.last()));
            assert(r0.map_values(|w: Seq<char>| lowercase(w)) =~= r0.drop_last().map_values(|w: Seq<char>| lowercase(w)).push(
                lowercase(r0.last()),
            ));
        }
    }
    proof {
        assert(text@.take(n as int) =~= text@);
    }
    out
}

/// `s` with `k` added last unless it holds it already.
pub open spec fn with_key(s: Seq<Seq<char>>, k: Seq<char>) -> Seq<Seq<char>> {
    if s.contains(k) {
        s
    } else {
        s.push(k)
    }
}

/// The words and postings after `id` is posted under `word`.
pub open spec fn post(words: Seq<Seq<char>>, posts: Seq<Seq<Seq<char>>>, word: Seq<char>, id: Seq<char>) -> (
    Seq<Seq<char>>,
    Seq<Seq<Seq<char>>>,
) {
    if words.contains(word) {
        let p = key_index(words, word);
        (words, posts.update(p, with_key(posts[p], id)))
    } else {
        (words.push(word), posts.push(seq![id]))
    }
}

/// The words and postings after `id` is posted under every word of `ws`
/// in turn.
pub open spec fn post_all(words: Seq<Seq<char>>, posts: Seq<Seq<Seq<char>>>, ws: Seq<Seq<char>>, id: Seq<char>) -> (
    Seq<Seq<char>>,
    Seq<Seq<Seq<char>>>,
)
    decreases ws.len(),
{
    if ws.len() == 0 {
        (words, posts)
    } else {
        let wp = post_all(words, posts, ws.drop_last(), id);
        post(wp.0, wp.1, ws.last(), id)
    }
}

/// The ids of the first posting narrowed, in turn, to those in each later
/// posting.
pub open spec fn narrow(qs: Seq<Seq<Seq<char>>>, j: int) -> Seq<Seq<char>>
    decreases j,
{
    if j <= 1 {
        qs[0]
    } else {
        filter_in(narrow(qs, j - 1), qs[j - 1], true)
    }
}

/// An index of documents, each under a string id with a value, by the
/// words of their text.
#[derive(Debug)]
pub struct InvertedIndex<V> {
    ids: IndexSet<String>,
    documents: Vec<V>,
    words: IndexSet<String>,
    postings: Vec<IndexSet<String>>,
}

impl<V> InvertedIndex<V> {
    /// The document ids, in insertion order.
    pub closed spec fn ids_seq(&self) -> Seq<Seq<char>> {
        key_order(self.ids)
    }

    /// The document values, in the order of their ids.
    pub closed spec fn docs_seq(&self) -> Seq<V> {
        self.documents@
    }

    /// The words seen, in order of first appearance.
    pub closed spec fn words_seq(&self) -> Seq<Seq<char>> {
        key_order(self.words)
    }

    /// The ids posted under each word, in the order of the words.
    pub closed spec fn postings_seq(&self) -> Seq<Seq<Seq<char>>> {
        self.postings@.map_values(|p: IndexSet<String>| key_order(p))
    }

    /// One value per distinct id and one posting of distinct ids per
    /// distinct word.
    pub closed spec fn wf(&self) -> bool {
        &&& key_order(self.ids).len() == self.documents@.len()
        &&& key_order(self.ids).no_duplicates()
        &&& key_order(self.words).len() == self.postings@.len()
        &&& key_order(self.words).no_duplicates()
        &&& forall|i: int| 0 <= i < self.postings@.len() ==> key_order(#[trigger] self.postings@[i]).no_duplicates()
    }

    /// An empty index.
    pub fn new() -> (r: Self)
        ensures
            r.wf(),
            r.ids_seq() == Seq::<Seq<char>>::empty(),
            r.docs_seq() == Seq::<V>::empty(),
            r.words_seq() == Seq::<Seq<char>>::empty(),
            r.postings_seq() == Seq::<Seq<Seq<char>>>::empty(),
    {
        let r = InvertedIndex { ids: keys_new(), documents: Vec::new(), words: keys_new(), postings: Vec::new() };
        proof {
            assert(r.postings_seq() =~= Seq::<Seq<Seq<char>>>::empty());
        }
        r
    }

    /// The number of documents.
    pub fn size(&self) -> (r: usize)
        ensures
            r == self.ids_seq().len(),
    {
        keys_len(&self.ids)
    }

    /// Removes every document and word.
    pub fn clear(&mut self)
        ensures
            final(self).wf(),
            final(self).ids_seq() == Seq::<Seq<char>>::empty(),
            final(self).docs_seq() == Seq::<V>::empty(),
            final(self).words_seq() == Seq::<Seq<char>>::empty(),
            final(self).postings_seq() == Seq::<Seq<Seq<char>>>::empty(),
    {
        keys_clear(&mut self.ids);
        self.documents.clear();
        keys_clear(&mut self.words);
        self.postings.clear();
        proof {
            assert(self.postings_seq() =~= Seq::<Seq<Seq<char>>>::empty());
        }
    }

    /// The value of document `id`, if there is one.
    pub fn get(&self, id: &str) -> (r: Option<&V>)
        requires
            self.wf(),
        ensures
            !self.ids_seq().contains(id@) ==> r is None,
            self.ids_seq().contains(id@) ==> r == Some(&self.docs_seq()[key_index(self.ids_seq(), id@)]),
    {
        match keys_index_of(&self.ids, id) {
            Some(i) => {
                proof {
                    lemma_key_index(self.ids_seq(), i as int);
                }
                Some(&self.documents[i])
            },
            None => None,
        }
    }

    /// Stores `value` as document `id`, in place for a known id, and posts
    /// the id under every word of `text`.
    pub fn add(&mut self, id: String, text: &str, value: V)
        requires
            old(self).wf(),
        ensures
            final(self).wf(),
            old(self).ids_seq().contains(id@) ==> final(self).ids_seq() == old(self).ids_seq()
                && final(self).docs_seq() == old(self).docs_seq().update(key_index(old(self).ids_seq(), id@), value),
            !old(self).ids_seq().contains(id@) ==> final(self).ids_seq() == old(self).ids_seq().push(id@)
                && final(self).docs_seq() == old(self).docs_seq().push(value),
            (final(self).words_seq(), final(self).postings_seq()) == post_all(
                old(self).words_seq(),
                old(self).postings_seq(),
                words_of(text@),
                id@,
            ),
    {
        let ghost k = id@;
        let (i, added) = keys_insert_full(&mut self.ids, id.clone());
        if added {
            self.documents.push(value);
            proof {
                lemma_push_distinct(old(self).ids_seq(), k);
            }
        } else {
            proof {
                lemma_key_index(old(self).ids_seq(), i as int);
            }
            self.documents.set(i, value);
        }
        let toks = tokenize(text);
        let ghost ws = toks@.map_values(|s: String| s@);
        let ghost docs1 = self.documents@;
        let mut j: usize = 0;
        proof {
            assert(ws.take(0) =~= Seq::<Seq<char>>::empty());
        }
        while j < toks.len()
            invariant
                self.wf(),
                self.ids_seq() == if added { old(self).ids_seq().push(k) } else { old(self).ids_seq() },
                self.docs_seq().len() == self.ids_seq().len(),
                self.documents@ == docs1,
                id@ == k,
                ws == toks@.map_values(|s: String| s@),
                j <= toks@.len(),
                (self.words_seq(), self.postings_seq()) == post_all(
                    old(self).words_seq(),
                    old(self).postings_seq(),
                    ws.take(j as int),
                    k,
                ),
            decreases toks@.len() - j,
        {
            let ghost w0 = self.words_seq();
            let ghost p0 = self.postings_seq();
            let ghost t = ws[j as int];
            proof {
                assert(ws.take(j + 1).drop_last() =~= ws.take(j as int));
                assert(ws.take(j + 1).last() == t);
            }
            let (wi, new_word) = keys_insert_full(&mut self.words, toks[j].clone());
            if new_word {
                let mut p = keys_new();
                let _ = keys_insert_full(&mut p, id.clone());
                self.postings.push(p);
                proof {
                    lemma_push_distinct(w0, t);
                    assert(key_order(p) =~= seq![k]);
                    assert(self.postings_seq() =~= p0.push(seq![k]));
                    assert(seq![k].no_duplicates());
                }
            } else {
                proof {
                    lemma_key_index(w0, wi as int);
                }
                let ghost before = key_order(self.postings@[wi as int]);
                let mut p = keys_new();
                std::mem::swap(&mut p, &mut self.postings[wi]);
                let _ = keys_insert_full(&mut p, id.clone());
                std::mem::swap(&mut p, &mut self.postings[wi]);
                proof {
                    assert(self.postings_seq() =~= p0.update(wi as int, with_key(p0[wi as int], k)));
                    if !before.contains(k) {
                        lemma_push_distinct(before, k);
                    }
                }
            }
            j = j + 1;
        }
        proof {
            assert(ws.take(toks@.len() as int) =~= ws);
        }
    }

    /// The values of the documents holding every word of `query`, in the
    /// order of the posting of its first word; none when a word is unknown
    /// or the query has no word.
    pub fn search(&self, query: &str) -> (r: Vec<&V>)
        requires
            self.wf(),
        ensures
            ({
                let qw = words_of(query@);
                let ok = qw.len() > 0 && forall|k: int| 0 <= k < qw.len() ==> self.words_seq().contains(#[trigger] qw[k]);
                let qs = qw.map_values(|w: Seq<char>| self.postings_seq()[key_index(self.words_seq(), w)]);
                let sel = filter_in(narrow(qs, qw.len() as int), self.ids_seq(), true);
                &&& !ok ==> r@.len() == 0
                &&& ok ==> r@.len() == sel.len() && forall|j: int|
                    0 <= j < r@.len() ==> *r@[j] == self.docs_seq()[key_index(self.ids_seq(), #[trigger] sel[j])]
            }),
    {
        let toks = tokenize(query);
        let ghost qw = toks@.map_values(|s: String| s@);
        let ghost qs = qw.map_values(|w: Seq<char>| self.postings_seq()[key_index(self.words_seq(), w)]);
        let mut out: Vec<&V> = Vec::new();
        if toks.len() == 0 {
            return out;
        }
        let first = match keys_index_of(&self.words, toks[0].as_str()) {
            Some(w) => w,
            None => {
                proof {
                    assert(qw[0] == toks@[0]@);
                    assert(!self.words_seq().contains(qw[0]));
                }
                return out;
            },
        };
        proof {
            lemma_key_index(self.words_seq(), first as int);
            assert(qs[0] == key_order(self.postings@[first as int]));
        }
        let mut ids = keys_clone(&self.postings[first]);
        let mut t: usize = 1;
        while t < toks.len()
            invariant
                self.wf(),
                qw == toks@.map_values(|s: String| s@),
                qw == words_of(query@),
                out@.len() == 0,
                qs == qw.map_values(|w: Seq<char>| self.postings_seq()[key_index(self.words_seq(), w)]),
                1 <= t <= toks@.len(),
                forall|k: int| 0 <= k < t ==> self.words_seq().contains(#[trigger] qw[k]),
                key_order(ids) == narrow(qs, t as int),
                key_order(ids).no_duplicates(),
            decreases toks@.len() - t,
        {
            let w = match keys_index_of(&self.words, toks[t].as_str()) {
                Some(w) => w,
                None => {
                    proof {
                        assert(qw[t as int] == toks@[t as int]@);
                        assert(!self.words_seq().contains(qw[t as int]));
                    }
                    return out;
                },
            };
            proof {
                lemma_key_index(self.words_seq(), w as int);
                assert(qs[t as int] == key_order(self.postings@[w as int]));
                lemma_filter_distinct(key_order(ids), |x: Seq<char>| key_order(self.postings@[w as int]).contains(x) == true);
            }
            ids = filter_keys(&ids, &self.postings[w], true);
            t = t + 1;
        }
        let ghost ki = key_order(ids);
        let ghost p = |x: Seq<char>| self.ids_seq().contains(x) == true;
        let n = keys_len(&ids);
        let mut j: usize = 0;
        proof {
            reveal(Seq::filter);
            assert(ki.take(0) =~= Seq::<Seq<char>>::empty());
        }
        while j < n
            invariant
                self.wf(),
                ki == key_order(ids),
                p == (|x: Seq<char>| self.ids_seq().contains(x) == true),
                n == ki.len(),
                j <= n,
                out@.len() == ki.take(j as int).filter(p).len(),
                forall|m: int| 0 <= m < out@.len() ==> *out@[m] == self.docs_seq()[key_index(
                    self.ids_seq(),
                    #[trigger] ki.take(j as int).filter(p)[m],
                )],
            decreases n - j,
        {
            proof {
                crate::set_ops::lemma_filter_step(ki, p, j as int);
            }
            match keys_get_index(&ids, j) {
                Some(id) => {
                    match keys_index_of(&self.ids, id.as_str()) {
                        Some(d) => {
                            proof {
                                lemma_key_index(self.ids_seq(), d as int);
                            }
                            out.push(&self.documents[d]);
                        },
                        None => {},
                    }
                },
                None => {},
            }
            j = j + 1;
        }
        proof {
            assert(ki.take(n as int) =~= ki);
        }
        out
    }
}

} // verus!
