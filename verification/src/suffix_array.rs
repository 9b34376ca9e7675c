//! Suffix arrays over the characters of a string.
use vstd::prelude::*;
use vstd::string::StrSliceExecFns;
use vstd::utf8::{encode_scalar, encode_utf8};
use crate::text::{chars_of, lemma_seq_less_total, lemma_seq_less_transitive, seq_less};
pub use crate::generalized_suffix_array::GeneralizedSuffixArray;

verus! {

/// The byte offset of character `i` of `s` in its UTF-8 encoding.
pub open spec fn byte_offset(s: Seq<char>, i: int) -> nat {
    encode_utf8(s.take(i)).len()
}

/// `p` is a prefix of `s`.
pub open spec fn starts_with(s: Seq<char>, p: Seq<char>) -> bool {
    p.len() <= s.len() && s.take(p.len() as int) == p
}

/// The byte offsets, in increasing order, of the characters of `s` before
/// position `k` at which the pattern `p` occurs.
pub open spec fn occurrences(s: Seq<char>, p: Seq<char>, k: int) -> Seq<usize>
    decreases k,
{
    if k <= 0 {
        seq![]
    } else {
        occurrences(s, p, k - 1) + if starts_with(s.skip(k - 1), p) {
            seq![byte_offset(s, k - 1) as usize]
        } else {
            seq![]
        }
    }
}

/// `order` lists every position of `s` once, sorted by the suffixes that
/// start there.
pub open spec fn sorted_suffix_order(s: Seq<char>, order: Seq<int>) -> bool {
    &&& order.len() == s.len()
    &&& order.no_duplicates()
    &&& forall|i: int| 0 <= i < order.len() ==> 0 <= #[trigger] order[i] < s.len()
    &&& forall|i: int, j: int|
        0 <= i < j < order.len() ==> seq_less(s.skip(#[trigger] order[i]), s.skip(#[trigger] order[j]))
}

/// Encoding a sequence with one more character appends its encoding.
pub proof fn lemma_encode_push(s: Seq<char>, c: char)
    ensures
        encode_utf8(s.push(c)) == encode_utf8(s) + encode_scalar(c as u32),
    decreases s.len(),
{
    if s.len() == 0 {
        assert(s.push(c).drop_first() =~= Seq::<char>::empty());
        assert(s.push(c)[0] == c);
        assert(encode_utf8(Seq::<char>::empty()) =~= Seq::<u8>::empty());
        assert(encode_utf8(s) =~= Seq::<u8>::empty());
        assert(encode_utf8(s.push(c)) =~= encode_scalar(c as u32) + encode_utf8(s.push(c).drop_first()));
        assert(encode_utf8(s.push(c)) =~= encode_scalar(c as u32));
    } else {
        lemma_encode_push(s.drop_first(), c);
        assert(s.push(c).drop_first() =~= s.drop_first().push(c));
        assert(encode_utf8(s.push(c)) =~= encode_utf8(s) + encode_scalar(c as u32));
    }
}

/// The number of UTF-8 bytes of a character.
pub(crate) fn utf8_width(c: char) -> (w: usize)
    ensures
        w == encode_scalar(c as u32).len(),
        1 <= w <= 4,
{
    let v = c as u32;
    if v <= 0x7f {
        1
    } else if v <= 0x7ff {
        2
    } else if v <= 0xffff && !(0xd800 <= v && v <= 0xdfff) {
        3
    } else {
        4
    }
}

/// Whether the suffix of `cs` at `a` comes before the one at `b`.
fn suffix_less(cs: &Vec<char>, a: usize, b: usize) -> (r: bool)
    requires
        a <= cs@.len(),
        b <= cs@.len(),
    ensures
        r == seq_less(cs@.skip(a as int), cs@.skip(b as int)),
{
    let n = cs.len();
    let mut i: usize = 0;
    while a + i < n && b + i < n
        invariant
            a <= n,
            b <= n,
            n == cs@.len(),
            a + i <= n,
            b + i <= n,
            seq_less(cs@.skip(a as int), cs@.skip(b as int)) == seq_less(cs@.skip(a + i), cs@.skip(b + i)),
        decreases n - a - i,
    {
        let x = cs[a + i];
        let y = cs[b + i];
        proof {
            assert(cs@.skip(a + i)[0] == x);
            assert(cs@.skip(b + i)[0] == y);
            assert(cs@.skip(a + i).drop_first() =~= cs@.skip(a + i + 1));
            assert(cs@.skip(b + i).drop_first() =~= cs@.skip(b + i + 1));
        }
        if x != y {
            return x < y;
        }
        i = i + 1;
    }
    b + i < n
}

/// A suffix array: the positions of a string's characters sorted by the
/// suffixes that start at them, reported as byte offsets.
#[derive(Debug, Clone)]
pub struct SuffixArray {
    text: String,
    chars: Vec<char>,
    positions: Vec<usize>,
    indices: Vec<usize>,
}

impl SuffixArray {
    /// The characters of the text.
    pub closed spec fn text_view(&self) -> Seq<char> {
        self.text@
    }

    /// The positions, in characters, of the sorted suffixes.
    pub closed spec fn order(&self) -> Seq<int> {
        self.positions@.map_values(|p: usize| p as int)
    }

    /// The byte offsets of the sorted suffixes.
    pub closed spec fn offsets(&self) -> Seq<usize> {
        self.indices@
    }

    /// The positions are sorted by suffix, the offsets belong to them.
    pub closed spec fn wf(&self) -> bool {
        &&& self.chars@ == self.text@
        &&& sorted_suffix_order(self.text@, self.order())
        &&& self.indices@.len() == self.positions@.len()
        &&& forall|k: int|
            0 <= k < self.indices@.len() ==> #[trigger] self.indices@[k] == byte_offset(
                self.text@,
                self.positions@[k] as int,
            )
    }

    /// Builds the suffix array of `text`.
    pub fn new(text: String) -> (r: Self)
        requires
            encode_utf8(text@).len() <= usize::MAX,
        ensures
            r.wf(),
            r.text_view() == text@,
            sorted_suffix_order(text@, r.order()),
            r.offsets().len() == text@.len(),
            forall|k: int| 0 <= k < r.offsets().len() ==> #[trigger] r.offsets()[k] == byte_offset(text@, r.order()[k]),
    {
        let cs = chars_of(text.as_str());
        let n = cs.len();
        // Byte offset of every character.
        let mut offsets: Vec<usize> = Vec::new();
        let mut acc: usize = 0;
        let mut j: usize = 0;
        while j < n
            invariant
                n == cs@.len(),
                cs@ == text@,
                encode_utf8(text@).len() <= usize::MAX,
                j <= n,
                offsets@.len() == j,
                acc == byte_offset(cs@, j as int),
                forall|t: int| 0 <= t < j ==> #[trigger] offsets@[t] == byte_offset(cs@, t),
            decreases n - j,
        {
            offsets.push(acc);
            let w = utf8_width(cs[j]);
            proof {
                assert(cs@.take(j + 1) =~= cs@.take(j as int).push(cs@[j as int]));
                lemma_encode_push(cs@.take(j as int), cs@[j as int]);
                lemma_encode_prefix_le(cs@, j + 1);
            }
            acc = acc + w;
            j = j + 1;
        }
        // Insertion sort of the positions by suffix.
        let mut positions: Vec<usize> = Vec::new();
        let mut i: usize = 0;
        while i < n
            invariant
                n == cs@.len(),
                i <= n,
                positions@.len() == i,
                positions@.no_duplicates(),
                forall|t: int| 0 <= t < i ==> #[trigger] positions@[t] < i,
                forall|a: int, b: int|
                    0 <= a < b < i ==> seq_less(cs@.skip(#[trigger] positions@[a] as int), cs@.skip(
                        #[trigger] positions@[b] as int,
                    )),
            decreases n - i,
        {
            let mut pos: usize = 0;
            while pos < positions.len() && !suffix_less(&cs, i, positions[pos])
                invariant
                    n == cs@.len(),
                    i < n,
                    pos <= positions@.len(),
                    forall|t: int| 0 <= t < positions@.len() ==> #[trigger] positions@[t] < i,
                    forall|t: int|
                        0 <= t < pos ==> !seq_less(cs@.skip(i as int), cs@.skip(#[trigger] positions@[t] as int)),
                decreases positions@.len() - pos,
            {
                pos = pos + 1;
            }
            let ghost old_p = positions@;
            positions.insert(pos, i);
            proof {
                let np = positions@;
                assert(np =~= old_p.insert(pos as int, i));
                let si = cs@.skip(i as int);
                assert forall|t: int| 0 <= t < old_p.len() implies si != cs@.skip(#[trigger] old_p[t] as int) by {
                    assert(si.len() != cs@.skip(old_p[t] as int).len());
                }
                assert forall|a: int, b: int| 0 <= a < b < i + 1 implies seq_less(
                    cs@.skip(#[trigger] np[a] as int),
                    cs@.skip(#[trigger] np[b] as int),
                ) by {
                    if a < pos && b < pos {
                        assert(np[a] == old_p[a] && np[b] == old_p[b]);
                    } else if a > pos && b > pos {
                        assert(np[a] == old_p[a - 1] && np[b] == old_p[b - 1]);
                    } else if a < pos && b == pos {
                        assert(np[a] == old_p[a]);
                        lemma_seq_less_total(si, cs@.skip(old_p[a] as int));
                    } else if a < pos && b > pos {
                        assert(np[a] == old_p[a] && np[b] == old_p[b - 1]);
                    } else {
                        assert(np[b] == old_p[b - 1]);
                        if pos as int != b - 1 {
                            lemma_seq_less_transitive(si, cs@.skip(old_p[pos as int] as int), cs@.skip(old_p[b - 1] as int));
                        }
                    }
                }
                assert forall|a: int, b: int| 0 <= a < np.len() && 0 <= b < np.len() && a != b implies np[a] != np[b] by {
                    if a != pos as int && b != pos as int {
                        let a2 = if a < pos { a } else { a - 1 };
                        let b2 = if b < pos { b } else { b - 1 };
                        assert(np[a] == old_p[a2] && np[b] == old_p[b2]);
                    } else if a == pos as int {
                        let b2 = if b < pos { b } else { b - 1 };
                        assert(np[b] == old_p[b2]);
                    } else {
                        let a2 = if a < pos { a } else { a - 1 };
                        assert(np[a] == old_p[a2]);
                    }
                }
                assert forall|t: int| 0 <= t < i + 1 implies #[trigger] np[t] < i + 1 by {
                    if t < pos {
                        assert(np[t] == old_p[t]);
                    } else if t > pos {
                        assert(np[t] == old_p[t - 1]);
                    }
                }
            }
            i = i + 1;
        }
        let mut indices: Vec<usize> = Vec::new();
        let mut k: usize = 0;
        while k < n
            invariant
                n == cs@.len(),
                positions@.len() == n,
                offsets@.len() == n,
                forall|t: int| 0 <= t < n ==> #[trigger] positions@[t] < n,
                forall|t: int| 0 <= t < n ==> #[trigger] offsets@[t] == byte_offset(cs@, t),
                k <= n,
                indices@.len() == k,
                forall|t: int| 0 <= t < k ==> #[trigger] indices@[t] == byte_offset(cs@, positions@[t] as int),
            decreases n - k,
        {
            indices.push(offsets[positions[k]]);
            k = k + 1;
        }
        let r = SuffixArray { text, chars: cs, positions, indices };
        proof {
            let o = r.order();
            assert forall|a: int, b: int| 0 <= a < o.len() && 0 <= b < o.len() && a != b implies o[a] != o[b] by {
                assert(r.positions@[a] != r.positions@[b]);
            }
            assert forall|a: int, b: int| 0 <= a < b < o.len() implies seq_less(r.text@.skip(#[trigger] o[a]), r.text@.skip(#[trigger] o[b])) by {
                assert(o[a] == r.positions@[a] as int && o[b] == r.positions@[b] as int);
            }
        }
        r
    }

    /// The number of suffixes, which is the number of characters.
    pub fn length(&self) -> (r: usize)
        requires
            self.wf(),
        ensures
            r == self.text_view().len(),
    {
        self.indices.len()
    }

    /// The byte offsets of the sorted suffixes.
    pub fn inspect(&self) -> (r: &[usize])
        ensures
            r@ == self.offsets(),
    {
        self.indices.as_slice()
    }

    /// The byte offsets of the sorted suffixes.
    pub fn array(&self) -> (r: &[usize])
        ensures
            r@ == self.offsets(),
    {
        self.indices.as_slice()
    }

    /// The text.
    pub fn string(&self) -> (r: &str)
        ensures
            r@ == self.text_view(),
    {
        self.text.as_str()
    }

    /// The suffix of the given rank in sorted order, if there is one.
    pub fn suffix(&self, rank: usize) -> (r: Option<&str>)
        requires
            self.wf(),
        ensures
            rank >= self.text_view().len() ==> r is None,
            rank < self.text_view().len() ==> (r matches Some(s) && s@ == self.text_view().skip(self.order()[rank as int])),
    {
        if rank >= self.positions.len() {
            return None;
        }
        let p = self.positions[rank];
        let n = self.chars.len();
        proof {
            assert(self.order()[rank as int] == p as int);
            assert(0 <= self.order()[rank as int] < self.text@.len());
        }
        Some(self.text.as_str().substring_char(p, n))
    }

    /// The byte offsets, in increasing order, at which `pattern` occurs.
    pub fn search(&self, pattern: &str) -> (r: Vec<usize>)
        requires
            self.wf(),
        ensures
            r@ == occurrences(self.text_view(), pattern@, self.text_view().len() as int),
    {
        let pat = chars_of(pattern);
        let n = self.chars.len();
        let m = pat.len();
        let mut out: Vec<usize> = Vec::new();
        let mut p: usize = 0;
        while p < n
            invariant
                self.wf(),
                n == self.chars@.len(),
                m == pat@.len(),
                pat@ == pattern@,
                p <= n,
                out@ == occurrences(self.chars@, pat@, p as int),
            decreases n - p,
        {
            let mut ok = m <= n - p;
            let mut t: usize = 0;
            while ok && t < m
                invariant
                    p < n,
                    n == self.chars@.len(),
                    m == pat@.len(),
                    t <= m,
                    ok ==> p + m <= n,
                    ok ==> forall|u: int| 0 <= u < t ==> self.chars@[p + u] == #[trigger] pat@[u],
                    !ok ==> !starts_with(self.chars@.skip(p as int), pat@),
                decreases m - t,
            {
                if self.chars[p + t] != pat[t] {
                    ok = false;
                    proof {
                        assert(self.chars@.skip(p as int).take(m as int)[t as int] == self.chars@[p + t]);
                    }
                }
                t = t + 1;
            }
            proof {
                if ok {
                    assert(self.chars@.skip(p as int).take(m as int) =~= pat@);
                }
            }
            if ok {
                let ghost s = self.chars@;
                let off = self.offset_of(p);
                out.push(off);
            }
            p = p + 1;
        }
        out
    }

    /// The byte offset of character `p`.
    fn offset_of(&self, p: usize) -> (r: usize)
        requires
            self.wf(),
            p < self.chars@.len(),
        ensures
            r == byte_offset(self.text@, p as int),
    {
        let n = self.positions.len();
        let mut k: usize = 0;
        proof {
            assert(self.order().len() == n);
            let idx = self.lemma_order_covers(p as int);
        }
        while k < n
            invariant
                self.wf(),
                n == self.positions@.len(),
                k <= n,
                p < self.chars@.len(),
                exists|t: int| k <= t < n && #[trigger] self.positions@[t] == p,
            decreases n - k,
        {
            if self.positions[k] == p {
                return self.indices[k];
            }
            k = k + 1;
        }
        0
    }

    /// Every position of the text appears in the order.
    proof fn lemma_order_covers(&self, p: int) -> (t: int)
        requires
            self.wf(),
            0 <= p < self.text@.len(),
        ensures
            0 <= t < self.positions@.len(),
            self.positions@[t] == p,
    {
        let o = self.order();
        let s = o;
        assert forall|i: int| 0 <= i < s.len() implies 0 <= #[trigger] s[i] < self.text@.len() by {}
        if !s.contains(p) {
            let r = s.filter(|x: int| x != p);
            crate::seq_facts::lemma_no_dup_range_len(s, 0, self.text@.len() as int);
            assert(s.to_set().subset_of(vstd::set_lib::set_int_range(0, self.text@.len() as int).remove(p)));
            s.unique_seq_to_set();
            vstd::set_lib::lemma_int_range(0, self.text@.len() as int);
            vstd::set_lib::lemma_len_subset(s.to_set(), vstd::set_lib::set_int_range(0, self.text@.len() as int).remove(p));
            assert(false);
        }
        let t = choose|t: int| 0 <= t < s.len() && s[t] == p;
        t
    }
}

/// A prefix of a string encodes to no more bytes than the whole.
pub proof fn lemma_encode_prefix_le(s: Seq<char>, k: int)
    requires
        0 <= k <= s.len(),
    ensures
        encode_utf8(s.take(k)).len() <= encode_utf8(s).len(),
    decreases s.len() - k,
{
    if k < s.len() {
        lemma_encode_prefix_le(s, k + 1);
        assert(s.take(k + 1) =~= s.take(k).push(s[k]));
        lemma_encode_push(s.take(k), s[k]);
    } else {
        assert(s.take(k) =~= s);
    }
}

} // verus!
