//! A suffix array over several strings joined by separator characters,
//! with the longest common substring of the strings.
use vstd::prelude::*;
use vstd::utf8::encode_utf8;
use crate::suffix_array::{
    byte_offset, lemma_encode_prefix_le, lemma_encode_push, sorted_suffix_order, utf8_width, SuffixArray,
};
use crate::text::{chars_less, chars_of, lemma_seq_less_irreflexive, lemma_seq_less_transitive, seq_less, string_from_chars};

verus! {

/// The most strings that can be joined: each separator is a distinct
/// control character, and there are 31 of them below the space.
pub const MAX_STRINGS: usize = 32;

/// The separator that follows the `i`-th string: the control character
/// whose code is `i + 1`.
pub open spec fn separator(i: int) -> char {
    (i + 1) as char
}

/// The separators between `n` strings are distinct and all lie below the
/// space character.
pub proof fn lemma_separators(n: int)
    requires
        n <= MAX_STRINGS,
    ensures
        forall|i: int, j: int| 0 <= i < j < n - 1 ==> separator(i) != separator(j),
        forall|i: int| 0 <= i < n - 1 ==> 0 < (#[trigger] separator(i) as int) < 0x20,
{
}

/// The views of a slice of strings.
pub open spec fn texts_view(texts: Seq<&str>) -> Seq<Seq<char>> {
    texts.map_values(|s: &str| s@)
}

/// The strings joined, each but the last followed by its separator.
pub open spec fn joined(strs: Seq<Seq<char>>) -> Seq<char>
    decreases strs.len(),
{
    if strs.len() == 0 {
        seq![]
    } else if strs.len() == 1 {
        strs[0]
    } else {
        joined(strs.drop_last()).push(separator(strs.len() - 2)) + strs.last()
    }
}

/// The byte offset at which the `i`-th string starts in the joined text.
pub open spec fn start_of(strs: Seq<Seq<char>>, i: int) -> int {
    if i <= 0 {
        0
    } else {
        encode_utf8(joined(strs.take(i)).push(separator(i - 1))).len() as int
    }
}

/// The byte offset at which the bytes owned by the `i`-th string end: the
/// start of the next string, or the end of the joined text.
pub open spec fn segment_end(strs: Seq<Seq<char>>, i: int) -> int {
    if i + 1 < strs.len() {
        start_of(strs, i + 1)
    } else {
        encode_utf8(joined(strs)).len() as int
    }
}

/// The `i`-th string owns byte `p`: it lies in the string's segment.
pub open spec fn owns(strs: Seq<Seq<char>>, i: int, p: int) -> bool {
    0 <= i < strs.len() && start_of(strs, i) <= p < segment_end(strs, i)
}

/// Joining one more string appends its separator and the string.
proof fn lemma_joined_step(strs: Seq<Seq<char>>, i: int)
    requires
        1 <= i < strs.len(),
    ensures
        joined(strs.take(i + 1)) == joined(strs.take(i)).push(separator(i - 1)) + strs[i],
{
    let t = strs.take(i + 1);
    assert(t.drop_last() =~= strs.take(i));
    assert(t.last() == strs[i]);
}

/// Joining a prefix of the strings gives a prefix of the joined text.
proof fn lemma_joined_prefix(strs: Seq<Seq<char>>, i: int, m: int)
    requires
        0 <= i <= m <= strs.len(),
    ensures
        joined(strs.take(i)).is_prefix_of(joined(strs.take(m))),
    decreases m - i,
{
    if i == m {
        assert(joined(strs.take(i)) =~= joined(strs.take(m)).subrange(0, joined(strs.take(i)).len() as int));
    } else {
        lemma_joined_prefix(strs, i + 1, m);
        let a = joined(strs.take(i));
        let b = joined(strs.take(i + 1));
        let c = joined(strs.take(m));
        if i == 0 {
            assert(a =~= Seq::<char>::empty());
            assert(a =~= c.subrange(0, 0));
        } else {
            lemma_joined_step(strs, i);
            assert(a =~= b.subrange(0, a.len() as int));
            assert(a =~= c.subrange(0, a.len() as int));
        }
    }
}

/// A prefix encodes to no more bytes than the whole.
proof fn lemma_prefix_encode_le(a: Seq<char>, b: Seq<char>)
    requires
        a.is_prefix_of(b),
    ensures
        encode_utf8(a).len() <= encode_utf8(b).len(),
{
    lemma_encode_prefix_le(b, a.len() as int);
    assert(b.take(a.len() as int) =~= a);
}

/// The separator character that follows the `i`-th string.
fn separator_char(i: usize) -> (c: char)
    requires
        i + 1 < MAX_STRINGS,
    ensures
        c == separator(i as int),
{
    let code: u8 = (i + 1) as u8;
    code as char
}

/// `s` occurs in `t` at position `p`.
pub open spec fn occurs_at(s: Seq<char>, t: Seq<char>, p: int) -> bool {
    0 <= p && p + s.len() <= t.len() && t.subrange(p, p + s.len()) == s
}

/// `s` occurs in two different strings of `strs`.
pub open spec fn shared(strs: Seq<Seq<char>>, s: Seq<char>) -> bool {
    exists|i: int, j: int, p: int, q: int|
        0 <= i < strs.len() && 0 <= j < strs.len() && i != j && #[trigger] occurs_at(s, strs[i], p)
            && #[trigger] occurs_at(s, strs[j], q)
}

/// `s` is a longest string shared by two of `strs`, and the first in
/// lexicographic order among those as long.
pub open spec fn longest_shared(strs: Seq<Seq<char>>, s: Seq<char>) -> bool {
    &&& shared(strs, s)
    &&& forall|t: Seq<char>| #[trigger] shared(strs, t) ==> t.len() < s.len() || (t.len() == s.len() && !seq_less(t, s))
}

/// The number of equal characters at the start of `a` from `p` and `b`
/// from `q`.
pub open spec fn run(a: Seq<char>, p: int, b: Seq<char>, q: int) -> nat
    decreases a.len() - p,
{
    if 0 <= p < a.len() && 0 <= q < b.len() && a[p] == b[q] {
        1 + run(a, p + 1, b, q + 1)
    } else {
        0
    }
}

/// The run from `p` and `q` is a common stretch of both strings.
proof fn lemma_run_common(a: Seq<char>, p: int, b: Seq<char>, q: int)
    requires
        0 <= p <= a.len(),
        0 <= q <= b.len(),
    ensures
        p + run(a, p, b, q) <= a.len(),
        q + run(a, p, b, q) <= b.len(),
        a.subrange(p, p + run(a, p, b, q)) =~= b.subrange(q, q + run(a, p, b, q)),
    decreases a.len() - p,
{
    if 0 <= p < a.len() && 0 <= q < b.len() && a[p] == b[q] {
        lemma_run_common(a, p + 1, b, q + 1);
        let c = run(a, p, b, q);
        assert(a.subrange(p, p + c) =~= seq![a[p]] + a.subrange(p + 1, p + c));
        assert(b.subrange(q, q + c) =~= seq![b[q]] + b.subrange(q + 1, q + c));
    }
}

/// A stretch common to both strings is no longer than the run.
proof fn lemma_run_at_least(a: Seq<char>, p: int, b: Seq<char>, q: int, n: int)
    requires
        0 <= p,
        0 <= q,
        0 <= n,
        p + n <= a.len(),
        q + n <= b.len(),
        a.subrange(p, p + n) == b.subrange(q, q + n),
    ensures
        run(a, p, b, q) >= n,
    decreases n,
{
    if n > 0 {
        assert(a.subrange(p, p + n)[0] == a[p]);
        assert(b.subrange(q, q + n)[0] == b[q]);
        assert(a[p] == b[q]);
        assert(a.subrange(p + 1, p + n) =~= a.subrange(p, p + n).drop_first());
        assert(b.subrange(q + 1, q + n) =~= b.subrange(q, q + n).drop_first());
        lemma_run_at_least(a, p + 1, b, q + 1, n - 1);
    }
}

/// The run at (`i`, `p`) against (`j`, `q`) is shorter than `best`, or as
/// long and not before it.
pub open spec fn good(strs: Seq<Seq<char>>, best: Seq<char>, i: int, j: int, p: int, q: int) -> bool {
    let c = run(strs[i], p, strs[j], q);
    c < best.len() || (c == best.len() && !seq_less(strs[i].subrange(p, p + c), best))
}

/// (`i2`, `j2`, `p2`, `q2`) comes before (`i`, `j`, `p`, `q`).
pub open spec fn before(i2: int, j2: int, p2: int, q2: int, i: int, j: int, p: int, q: int) -> bool {
    i2 < i || (i2 == i && (j2 < j || (j2 == j && (p2 < p || (p2 == p && q2 < q)))))
}

/// Every run between two strings met before (`i`, `j`, `p`, `q`) is good.
pub open spec fn covered(strs: Seq<Seq<char>>, best: Seq<char>, i: int, j: int, p: int, q: int) -> bool {
    forall|i2: int, j2: int, p2: int, q2: int|
        0 <= i2 < j2 < strs.len() && 0 <= p2 < strs[i2].len() && 0 <= q2 < strs[j2].len() && before(
            i2,
            j2,
            p2,
            q2,
            i,
            j,
            p,
            q,
        ) ==> #[trigger] good(strs, best, i2, j2, p2, q2)
}

/// A better candidate keeps every good run good.
proof fn lemma_good_better(strs: Seq<Seq<char>>, best: Seq<char>, best2: Seq<char>, i: int, j: int, p: int, q: int)
    requires
        good(strs, best, i, j, p, q),
        best2.len() > best.len() || (best2.len() == best.len() && seq_less(best2, best)),
    ensures
        good(strs, best2, i, j, p, q),
{
    let x = strs[i].subrange(p, p + run(strs[i], p, strs[j], q));
    if run(strs[i], p, strs[j], q) == best2.len() && best2.len() == best.len() && seq_less(x, best2) {
        lemma_seq_less_transitive(x, best2, best);
    }
}

/// Once every run is good, the candidate is a longest shared string.
proof fn lemma_covered_longest(strs: Seq<Seq<char>>, best: Seq<char>)
    requires
        strs.len() >= 2,
        shared(strs, best),
        covered(strs, best, strs.len() as int, 0, 0, 0),
    ensures
        longest_shared(strs, best),
{
    assert forall|t: Seq<char>| #[trigger] shared(strs, t) implies t.len() < best.len() || (t.len() == best.len()
        && !seq_less(t, best)) by {
        let (i, j, p, q) = choose|i: int, j: int, p: int, q: int|
            0 <= i < strs.len() && 0 <= j < strs.len() && i != j && #[trigger] occurs_at(t, strs[i], p)
                && #[trigger] occurs_at(t, strs[j], q);
        if t.len() == 0 {
            if best.len() == 0 {
                assert(t =~= best);
                lemma_seq_less_irreflexive(t);
            }
        } else {
            let (a, b, pa, pb) = if i < j { (i, j, p, q) } else { (j, i, q, p) };
            let n = t.len() as int;
            lemma_run_at_least(strs[a], pa, strs[b], pb, n);
            assert(good(strs, best, a, b, pa, pb));
            let c = run(strs[a], pa, strs[b], pb);
            if c == best.len() && n == c {
                assert(strs[a].subrange(pa, pa + c) == t);
            }
        }
    }
}

/// Copies the characters of `v` from `p` on, `c` of them.
fn sub_chars(v: &Vec<char>, p: usize, c: usize) -> (r: Vec<char>)
    requires
        p + c <= v@.len(),
    ensures
        r@ == v@.subrange(p as int, p + c),
{
    let mut r: Vec<char> = Vec::new();
    let mut k: usize = 0;
    while k < c
        invariant
            p + c <= v@.len(),
            k <= c,
            r@ == v@.subrange(p as int, p + k),
            v@.len() == v.len(),
        decreases c - k,
    {
        r.push(v[p + k]);
        k = k + 1;
        proof {
            assert(r@ =~= v@.subrange(p as int, p + k));
        }
    }
    r
}

/// A suffix array over several strings joined by separators.
#[derive(Debug, Clone)]
pub struct GeneralizedSuffixArray {
    strings: Vec<String>,
    starts: Vec<usize>,
    text_index: Vec<usize>,
    suffixes: SuffixArray,
}

impl GeneralizedSuffixArray {
    /// The strings.
    pub closed spec fn strings_view(&self) -> Seq<Seq<char>> {
        self.strings@.map_values(|s: String| s@)
    }

    /// The joined text.
    pub closed spec fn text(&self) -> Seq<char> {
        self.suffixes.text_view()
    }

    /// The UTF-8 bytes of the joined text.
    pub open spec fn bytes(&self) -> Seq<u8> {
        encode_utf8(self.text())
    }

    /// The positions, in characters, of the sorted suffixes.
    pub closed spec fn order(&self) -> Seq<int> {
        self.suffixes.order()
    }

    /// The byte offsets of the sorted suffixes.
    pub closed spec fn offsets(&self) -> Seq<usize> {
        self.suffixes.offsets()
    }

    /// For each byte of the joined text, the index of the string that owns it.
    pub closed spec fn owners(&self) -> Seq<usize> {
        self.text_index@
    }

    /// The text is the joined strings, its suffixes are sorted, and each
    /// byte is owned by the string whose segment holds it.
    pub closed spec fn wf(&self) -> bool {
        let strs = self.strings_view();
        &&& self.suffixes.wf()
        &&& self.text() == joined(strs)
        &&& sorted_suffix_order(self.text(), self.order())
        &&& self.offsets().len() == self.text().len()
        &&& forall|k: int|
            0 <= k < self.offsets().len() ==> #[trigger] self.offsets()[k] == byte_offset(
                self.text(),
                self.order()[k],
            )
        &&& self.starts@.len() == strs.len()
        &&& forall|i: int| 0 <= i < strs.len() ==> #[trigger] self.starts@[i] == start_of(strs, i)
        &&& self.text_index@.len() == self.bytes().len()
        &&& forall|p: int|
            0 <= p < self.text_index@.len() ==> owns(strs, #[trigger] self.text_index@[p] as int, p)
    }

    /// Builds the generalized suffix array of `texts`.
    pub fn new(texts: &[&str]) -> (r: Self)
        requires
            texts@.len() <= MAX_STRINGS,
            encode_utf8(joined(texts_view(texts@))).len() <= usize::MAX,
        ensures
            r.wf(),
            r.strings_view() == texts_view(texts@),
            r.text() == joined(texts_view(texts@)),
            sorted_suffix_order(r.text(), r.order()),
            r.offsets().len() == r.text().len(),
            forall|k: int| 0 <= k < r.offsets().len() ==> #[trigger] r.offsets()[k] == byte_offset(r.text(), r.order()[k]),
            forall|i: int, j: int| 0 <= i < j < texts@.len() - 1 ==> separator(i) != separator(j),
            forall|i: int| 0 <= i < texts@.len() - 1 ==> 0 < (#[trigger] separator(i) as int) < 0x20,
    {
        proof {
            lemma_separators(texts@.len() as int);
        }
        let n = texts.len();
        let ghost strs = texts_view(texts@);
        let ghost whole = joined(strs);
        let mut strings: Vec<String> = Vec::new();
        let mut chars: Vec<char> = Vec::new();
        let mut starts: Vec<usize> = Vec::new();
        let mut total: usize = 0;
        let mut i: usize = 0;
        proof {
            assert(strs.take(0) =~= Seq::<Seq<char>>::empty());
            assert(strs.take(n as int) =~= strs);
        }
        while i < n
            invariant
                n == texts@.len(),
                n <= MAX_STRINGS,
                strs == texts_view(texts@),
                strs.len() == n,
                whole == joined(strs),
                strs.take(n as int) == strs,
                encode_utf8(whole).len() <= usize::MAX,
                i <= n,
                strings@.len() == i,
                forall|j: int| 0 <= j < i ==> (#[trigger] strings@[j])@ == strs[j],
                chars@ == joined(strs.take(i as int)),
                total == encode_utf8(chars@).len(),
                starts@.len() == i,
                forall|j: int| 0 <= j < i ==> #[trigger] starts@[j] == start_of(strs, j),
                forall|j: int| 0 <= j < i ==> #[trigger] starts@[j] <= total,
                forall|j: int, k: int| 0 <= j <= k < i ==> #[trigger] starts@[j] <= #[trigger] starts@[k],
            decreases n - i,
        {
            let cs = chars_of(texts[i]);
            let ghost base = chars@;
            proof {
                assert(texts@[i as int]@ == strs[i as int]);
                lemma_joined_prefix(strs, i as int + 1, n as int);
                if i > 0 {
                    lemma_joined_step(strs, i as int);
                }
            }
            if i > 0 {
                let c = separator_char(i - 1);
                proof {
                    lemma_encode_push(chars@, c);
                    let nxt = joined(strs.take(i as int + 1));
                    assert(chars@.push(c) =~= nxt.subrange(0, chars@.len() as int + 1));
                    assert(chars@.push(c).is_prefix_of(whole));
                    lemma_prefix_encode_le(chars@.push(c), whole);
                }
                let w = utf8_width(c);
                chars.push(c);
                total = total + w;
            }
            let ghost head = chars@;
            proof {
                if i == 0 {
                    assert(strs.take(1)[0] == strs[0]);
                    assert(joined(strs.take(1)) == head + strs[0]);
                }
                assert(joined(strs.take(i as int + 1)) =~= head + cs@);
                assert(i > 0 ==> start_of(strs, i as int) == total);
            }
            starts.push(total);
            let ghost start_total = total;
            let mut t: usize = 0;
            while t < cs.len()
                invariant
                    whole == joined(strs),
                    encode_utf8(whole).len() <= usize::MAX,
                    joined(strs.take(i as int + 1)) == head + cs@,
                    joined(strs.take(i as int + 1)).is_prefix_of(whole),
                    t <= cs@.len(),
                    chars@ == head + cs@.take(t as int),
                    total == encode_utf8(chars@).len(),
                    total >= start_total,
                decreases cs@.len() - t,
            {
                let c = cs[t];
                proof {
                    lemma_encode_push(chars@, c);
                    assert(chars@.push(c) =~= (head + cs@).subrange(0, chars@.len() as int + 1));
                    assert(chars@.push(c).is_prefix_of(whole));
                    lemma_prefix_encode_le(chars@.push(c), whole);
                }
                let w = utf8_width(c);
                chars.push(c);
                total = total + w;
                t = t + 1;
                proof {
                    assert(chars@ =~= head + cs@.take(t as int));
                }
            }
            proof {
                assert(cs@.take(cs@.len() as int) =~= cs@);
            }
            strings.push(texts[i].to_owned());
            i = i + 1;
        }
        assert(strings@.map_values(|s: String| s@) =~= strs);
        let combined = string_from_chars(&chars, 0, chars.len());
        proof {
            assert(chars@.subrange(0, chars@.len() as int) =~= chars@);
        }
        let suffixes = SuffixArray::new(combined);
        // Each byte is owned by the string whose segment holds it.
        let mut text_index: Vec<usize> = Vec::new();
        let mut i: usize = 0;
        while i < n
            invariant
                n == strs.len(),
                whole == joined(strs),
                total == encode_utf8(whole).len(),
                starts@.len() == n,
                forall|j: int| 0 <= j < n ==> #[trigger] starts@[j] == start_of(strs, j),
                forall|j: int| 0 <= j < n ==> #[trigger] starts@[j] <= total,
                forall|j: int, k: int| 0 <= j <= k < n ==> #[trigger] starts@[j] <= #[trigger] starts@[k],
                i <= n,
                i < n ==> text_index@.len() == start_of(strs, i as int),
                i == n && n > 0 ==> text_index@.len() == total,
                text_index@.len() <= total,
                forall|p: int| 0 <= p < text_index@.len() ==> owns(strs, #[trigger] text_index@[p] as int, p),
            decreases n - i,
        {
            let end = if i + 1 < n {
                starts[i + 1]
            } else {
                total
            };
            proof {
                assert(starts@[i as int] <= end);
                assert(end == segment_end(strs, i as int));
            }
            while text_index.len() < end
                invariant
                    text_index@.len() <= end,
                    start_of(strs, i as int) <= end,
                    end == segment_end(strs, i as int),
                    end <= total,
                    i < n,
                    n == strs.len(),
                    text_index@.len() >= start_of(strs, i as int),
                    forall|p: int| 0 <= p < text_index@.len() ==> owns(strs, #[trigger] text_index@[p] as int, p),
                decreases end - text_index@.len(),
            {
                text_index.push(i);
            }
            i = i + 1;
        }
        let r = GeneralizedSuffixArray { strings, starts, text_index, suffixes };
        r
    }

    /// The number of suffixes, which is the number of characters of the
    /// joined text.
    pub fn length(&self) -> (r: usize)
        requires
            self.wf(),
        ensures
            r == self.text().len(),
    {
        self.suffixes.length()
    }

    /// The number of strings.
    pub fn size(&self) -> (r: usize)
        ensures
            r == self.strings_view().len(),
    {
        self.strings.len()
    }

    /// The byte offsets of the sorted suffixes.
    pub fn array(&self) -> (r: &[usize])
        ensures
            r@ == self.offsets(),
    {
        self.suffixes.array()
    }

    /// The joined text.
    pub fn string(&self) -> (r: &str)
        ensures
            r@ == self.text(),
    {
        self.suffixes.string()
    }

    /// The longest substring that occurs in two different strings, the
    /// first in lexicographic order among those as long; empty when there
    /// are fewer than two strings.
    pub fn longest_common_subsequence(&self) -> (r: String)
        requires
            self.wf(),
        ensures
            self.strings_view().len() < 2 ==> r@ == Seq::<char>::empty(),
            self.strings_view().len() >= 2 ==> longest_shared(self.strings_view(), r@),
    {
        let n = self.strings.len();
        if n < 2 {
            return String::new();
        }
        let ghost strs = self.strings_view();
        let mut cs: Vec<Vec<char>> = Vec::new();
        let mut k: usize = 0;
        while k < n
            invariant
                n == self.strings@.len(),
                strs == self.strings_view(),
                k <= n,
                cs@.len() == k,
                forall|x: int| 0 <= x < k ==> (#[trigger] cs@[x])@ == strs[x],
            decreases n - k,
        {
            cs.push(chars_of(self.strings[k].as_str()));
            k = k + 1;
        }
        let mut best: Vec<char> = Vec::new();
        proof {
            assert(strs[0].subrange(0, 0) =~= best@);
            assert(strs[1].subrange(0, 0) =~= best@);
            assert(occurs_at(best@, strs[0], 0));
            assert(occurs_at(best@, strs[1], 0));
        }
        let mut i: usize = 0;
        while i < n
            invariant
                n == strs.len(),
                n >= 2,
                cs@.len() == n,
                forall|x: int| 0 <= x < n ==> (#[trigger] cs@[x])@ == strs[x],
                i <= n,
                shared(strs, best@),
                covered(strs, best@, i as int, 0, 0, 0),
            decreases n - i,
        {
            let mut j: usize = i + 1;
            while j < n
                invariant
                    n == strs.len(),
                    n >= 2,
                    cs@.len() == n,
                    forall|x: int| 0 <= x < n ==> (#[trigger] cs@[x])@ == strs[x],
                    i < n,
                    i < j <= n,
                    shared(strs, best@),
                    covered(strs, best@, i as int, j as int, 0, 0),
                decreases n - j,
            {
                let a = &cs[i];
                let b = &cs[j];
                let mut p: usize = 0;
                while p < a.len()
                    invariant
                        n == strs.len(),
                        cs@.len() == n,
                        forall|x: int| 0 <= x < n ==> (#[trigger] cs@[x])@ == strs[x],
                        i < j < n,
                        a@ == strs[i as int],
                        b@ == strs[j as int],
                        p <= a@.len(),
                        shared(strs, best@),
                        covered(strs, best@, i as int, j as int, p as int, 0),
                    decreases a@.len() - p,
                {
                    let mut q: usize = 0;
                    while q < b.len()
                        invariant
                            n == strs.len(),
                            cs@.len() == n,
                            forall|x: int| 0 <= x < n ==> (#[trigger] cs@[x])@ == strs[x],
                            i < j < n,
                            a@ == strs[i as int],
                            b@ == strs[j as int],
                            p < a@.len(),
                            q <= b@.len(),
                            shared(strs, best@),
                            covered(strs, best@, i as int, j as int, p as int, q as int),
                        decreases b@.len() - q,
                    {
                        let mut c: usize = 0;
                        while p + c < a.len() && q + c < b.len() && a[p + c] == b[q + c]
                            invariant
                                p < a@.len(),
                                q < b@.len(),
                                p + c <= a@.len(),
                                q + c <= b@.len(),
                                a@.len() == a.len(),
                                b@.len() == b.len(),
                                run(a@, p as int, b@, q as int) == c + run(a@, p + c, b@, q + c),
                            decreases a@.len() - p - c,
                        {
                            c = c + 1;
                        }
                        let ghost old_best = best@;
                        proof {
                            lemma_run_common(a@, p as int, b@, q as int);
                            assert(run(a@, p as int, b@, q as int) == c);
                        }
                        let mut take = c > best.len();
                        if c == best.len() && c > 0 {
                            let cand = sub_chars(a, p, c);
                            take = chars_less(&cand, &best);
                        }
                        if take {
                            best = sub_chars(a, p, c);
                            proof {
                                assert(occurs_at(best@, strs[i as int], p as int));
                                assert(occurs_at(best@, strs[j as int], q as int));
                                assert forall|i2: int, j2: int, p2: int, q2: int|
                                    0 <= i2 < j2 < strs.len() && 0 <= p2 < strs[i2].len() && 0 <= q2 < strs[j2].len()
                                        && before(i2, j2, p2, q2, i as int, j as int, p as int, q as int) implies #[trigger] good(
                                    strs,
                                    best@,
                                    i2,
                                    j2,
                                    p2,
                                    q2,
                                ) by {
                                    assert(good(strs, old_best, i2, j2, p2, q2));
                                    lemma_good_better(strs, old_best, best@, i2, j2, p2, q2);
                                }
                            }
                        }
                        proof {
                            if !take {
                                if c == best@.len() && c > 0 {
                                    assert(a@.subrange(p as int, p + c) == strs[i as int].subrange(p as int, p + c));
                                }
                                if c == 0 && best@.len() == 0 {
                                    lemma_seq_less_irreflexive(best@);
                                    assert(strs[i as int].subrange(p as int, p as int) =~= best@);
                                }
                                assert(good(strs, best@, i as int, j as int, p as int, q as int));
                            } else {
                                lemma_seq_less_irreflexive(best@);
                                assert(good(strs, best@, i as int, j as int, p as int, q as int));
                            }
                            assert forall|i2: int, j2: int, p2: int, q2: int|
                                0 <= i2 < j2 < strs.len() && 0 <= p2 < strs[i2].len() && 0 <= q2 < strs[j2].len()
                                    && before(i2, j2, p2, q2, i as int, j as int, p as int, q + 1) implies #[trigger] good(
                                strs,
                                best@,
                                i2,
                                j2,
                                p2,
                                q2,
                            ) by {
                                if !before(i2, j2, p2, q2, i as int, j as int, p as int, q as int) {
                                    assert(i2 == i && j2 == j && p2 == p && q2 == q);
                                }
                            }
                        }
                        q = q + 1;
                    }
                    p = p + 1;
                }
                j = j + 1;
            }
            i = i + 1;
        }
        proof {
            lemma_covered_longest(strs, best@);
        }
        let r = string_from_chars(&best, 0, best.len());
        proof {
            assert(r@ =~= best@);
        }
        r
    }
}

} // verus!
