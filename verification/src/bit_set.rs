//! A fixed-length set of bits packed into 32-bit words.
use vstd::prelude::*;
use crate::bit_model::{
    count_true, is_select, lemma_count_all_false, lemma_count_take_full, lemma_count_take_monotone,
    lemma_count_take_succ, lemma_count_update, lemma_index_split, lemma_word_clear, lemma_word_read,
    lemma_word_set, lemma_word_zero, word_bit,
};

verus! {

/// A set over `0..length`, each membership a bit of a 32-bit word.
#[derive(Debug, Clone)]
pub struct BitSet {
    length: usize,
    words: Vec<u32>,
    size: usize,
}

/// The number of 32-bit words needed for `length` bits.
pub open spec fn words_for(length: nat) -> nat {
    (length + 31) / 32
}

/// Bit `i` of the packed words.
pub open spec fn packed_bit(words: Seq<u32>, i: int) -> bool {
    word_bit(words[i / 32], i % 32)
}

impl View for BitSet {
    type V = Seq<bool>;

    closed spec fn view(&self) -> Seq<bool> {
        Seq::new(self.length as nat, |i: int| packed_bit(self.words@, i))
    }
}

impl BitSet {
    /// The words hold exactly the needed number of words, bits past the
    /// length are clear, and `size` counts the set bits.
    pub closed spec fn wf(&self) -> bool {
        &&& self.words@.len() == words_for(self.length as nat)
        &&& forall|w: int, k: int|
            0 <= w < self.words@.len() && 0 <= k < 32 && 32 * w + k >= self.length ==> !#[trigger] word_bit(
                self.words@[w],
                k,
            )
        &&& self.size == count_true(self@)
    }

    /// The words of the set, bit `k` of word `w` standing for `32 * w + k`.
    pub closed spec fn word_seq(&self) -> Seq<u32> {
        self.words@
    }

    /// An empty set over `0..length`.
    pub fn new(length: usize) -> (r: Self)
        ensures
            r.wf(),
            r@ == Seq::new(length as nat, |i: int| false),
    {
        let mut set = BitSet { length, words: Vec::new(), size: 0 };
        set.clear();
        set
    }

    /// Removes every member.
    pub fn clear(&mut self)
        ensures
            final(self).wf(),
            final(self)@ == Seq::new(old(self)@.len(), |i: int| false),
    {
        self.size = 0;
        let n = self.length / 32 + if self.length % 32 != 0 { 1usize } else { 0usize };
        let mut words: Vec<u32> = Vec::new();
        let mut i: usize = 0;
        while i < n
            invariant
                i <= n,
                words@.len() == i,
                forall|j: int| 0 <= j < i ==> #[trigger] words@[j] == 0,
            decreases n - i,
        {
            words.push(0);
            i = i + 1;
        }
        self.words = words;
        proof {
            lemma_word_zero();
            assert(self@ =~= Seq::new(old(self)@.len(), |i: int| false));
            lemma_count_all_false(self@);
        }
    }

    /// The number of possible members.
    pub fn length(&self) -> (r: usize)
        ensures
            r == self@.len(),
    {
        self.length
    }

    /// The number of 32-bit words.
    pub fn word_len(&self) -> (r: usize)
        requires
            self.wf(),
        ensures
            r == words_for(self@.len()),
    {
        self.words.len()
    }

    /// The number of members.
    pub fn size(&self) -> (r: usize)
        requires
            self.wf(),
        ensures
            r == count_true(self@),
    {
        self.size
    }

    /// Sets whether `index` is a member; nothing happens out of bounds.
    pub fn set(&mut self, index: usize, value: bool)
        requires
            old(self).wf(),
        ensures
            final(self).wf(),
            index >= old(self)@.len() ==> final(self)@ == old(self)@,
            index < old(self)@.len() ==> final(self)@ == old(self)@.update(index as int, value),
    {
        if index >= self.length {
            return;
        }
        let byte_index = index >> 5;
        let pos = index & 31;
        proof {
            lemma_index_split(index);
        }
        let pos32 = pos as u32;
        let mask = 1u32 << pos32;
        let w = self.words[byte_index];
        let was_set = w & mask != 0;
        proof {
            lemma_mask_test(w, pos32);
            lemma_count_update(old(self)@, index as int, value);
            lemma_count_le_len(old(self)@.update(index as int, value));
        }
        if value {
            self.words.set(byte_index, w | mask);
            proof {
                lemma_word_set(w, pos32);
            }
            if !was_set {
                self.size = self.size + 1;
            }
        } else {
            self.words.set(byte_index, w & !mask);
            proof {
                lemma_word_clear(w, pos32);
            }
            if was_set {
                self.size = self.size - 1;
            }
        }
        proof {
            self.lemma_one_word_changed(old(self), index as int, value);
        }
    }

    /// After changing one bit of one word, the view changes at that index.
    proof fn lemma_one_word_changed(&self, before: &BitSet, index: int, value: bool)
        requires
            before.wf(),
            self.length == before.length,
            0 <= index < before.length,
            self.words@.len() == before.words@.len(),
            forall|w: int| 0 <= w < self.words@.len() && w != index / 32 ==> #[trigger] self.words@[w] == before.words@[w],
            word_bit(self.words@[index / 32], index % 32) == value,
            forall|k: int| 0 <= k < 32 && k != index % 32 ==> #[trigger] word_bit(self.words@[index / 32], k)
                == word_bit(before.words@[index / 32], k),
            self.size == count_true(before@.update(index, value)),
        ensures
            self.wf(),
            self@ == before@.update(index, value),
    {
        assert(self@ =~= before@.update(index, value)) by {
            assert forall|i: int| 0 <= i < self.length implies #[trigger] self@[i] == before@.update(index, value)[i] by {
                if i / 32 != index / 32 {
                } else if i != index {
                    assert(i % 32 != index % 32);
                }
            }
        }
        assert forall|w: int, k: int|
            0 <= w < self.words@.len() && 0 <= k < 32 && 32 * w + k >= self.length implies !#[trigger] word_bit(
            self.words@[w],
            k,
        ) by {
            if w == index / 32 {
                assert(k != index % 32);
            }
        }
    }

    /// Removes `index`; nothing happens out of bounds.
    pub fn reset(&mut self, index: usize)
        requires
            old(self).wf(),
        ensures
            final(self).wf(),
            index >= old(self)@.len() ==> final(self)@ == old(self)@,
            index < old(self)@.len() ==> final(self)@ == old(self)@.update(index as int, false),
    {
        self.set(index, false);
    }

    /// Toggles the membership of `index`; nothing happens out of bounds.
    pub fn flip(&mut self, index: usize)
        requires
            old(self).wf(),
        ensures
            final(self).wf(),
            index >= old(self)@.len() ==> final(self)@ == old(self)@,
            index < old(self)@.len() ==> final(self)@ == old(self)@.update(index as int, !old(self)@[index as int]),
    {
        if index >= self.length {
            return;
        }
        let byte_index = index >> 5;
        let pos = index & 31;
        proof {
            lemma_index_split(index);
        }
        let pos32 = pos as u32;
        let mask = 1u32 << pos32;
        let w = self.words[byte_index];
        let ghost value = !old(self)@[index as int];
        proof {
            lemma_mask_test(w, pos32);
            lemma_count_update(old(self)@, index as int, value);
            lemma_count_le_len(old(self)@.update(index as int, value));
        }
        if w & mask == 0 {
            self.words.set(byte_index, w | mask);
            proof {
                lemma_word_set(w, pos32);
            }
            self.size = self.size + 1;
        } else {
            self.words.set(byte_index, w & !mask);
            proof {
                lemma_word_clear(w, pos32);
            }
            self.size = self.size - 1;
        }
        proof {
            self.lemma_one_word_changed(old(self), index as int, value);
        }
    }

    /// `1` when `index` is a member, else `0` (also out of bounds).
    pub fn get(&self, index: usize) -> (r: u8)
        requires
            self.wf(),
        ensures
            r == if index < self@.len() && self@[index as int] { 1u8 } else { 0u8 },
    {
        if index >= self.length {
            return 0;
        }
        let byte_index = index >> 5;
        let pos = index & 31;
        proof {
            lemma_index_split(index);
            lemma_word_read(self.words@[byte_index as int], pos as u32);
        }
        ((self.words[byte_index] >> (pos as u32)) & 1) as u8
    }

    /// Whether `index` is a member.
    pub fn test(&self, index: usize) -> (r: bool)
        requires
            self.wf(),
        ensures
            r == (index < self@.len() && self@[index as int]),
    {
        self.get(index) == 1
    }

    /// The number of members strictly below `index`.
    pub fn rank(&self, index: usize) -> (r: usize)
        requires
            self.wf(),
        ensures
            r == count_true(self@.take(if index < self@.len() { index as int } else { self@.len() as int })),
    {
        let end = if index < self.length { index } else { self.length };
        if self.size == 0 {
            proof {
                lemma_count_take_monotone(self@, end as int, self@.len() as int);
                lemma_count_take_full(self@);
            }
            return 0;
        }
        let mut count: usize = 0;
        let mut i: usize = 0;
        while i < end
            invariant
                self.wf(),
                end <= self@.len(),
                i <= end,
                count == count_true(self@.take(i as int)),
                count <= i,
            decreases end - i,
        {
            proof {
                lemma_count_take_succ(self@, i as int);
            }
            if self.test(i) {
                count = count + 1;
            }
            i = i + 1;
        }
        count
    }

    /// The `r`-th member in increasing order (counting from one), or `-1`
    /// when `r` is zero or there are fewer than `r` members.
    pub fn select(&self, r: usize) -> (res: isize)
        requires
            self.wf(),
            self@.len() <= isize::MAX,
        ensures
            (r == 0 || count_true(self@) < r) ==> res == -1,
            (r > 0 && count_true(self@) >= r) ==> is_select(self@, r as nat, res as int),
    {
        if self.size == 0 || r == 0 || r > self.size {
            return -1;
        }
        let mut count: usize = 0;
        let mut index: usize = 0;
        while index < self.length
            invariant
                self.wf(),
                self@.len() <= isize::MAX,
                0 < r <= count_true(self@),
                index <= self@.len(),
                count == count_true(self@.take(index as int)),
                count < r,
            decreases self@.len() - index,
        {
            proof {
                lemma_count_take_succ(self@, index as int);
            }
            if self.test(index) {
                count = count + 1;
                if count == r {
                    return index as isize;
                }
            }
            index = index + 1;
        }
        proof {
            lemma_count_take_full(self@);
        }
        -1
    }

    /// Every position's membership as `0` or `1`, in order.
    pub fn values(&self) -> (r: Vec<u8>)
        requires
            self.wf(),
        ensures
            r@.len() == self@.len(),
            forall|i: int| 0 <= i < r@.len() ==> #[trigger] r@[i] == if self@[i] { 1u8 } else { 0u8 },
    {
        let mut out: Vec<u8> = Vec::new();
        let mut i: usize = 0;
        while i < self.length
            invariant
                self.wf(),
                i <= self@.len(),
                out@.len() == i,
                forall|j: int| 0 <= j < i ==> #[trigger] out@[j] == if self@[j] { 1u8 } else { 0u8 },
            decreases self@.len() - i,
        {
            out.push(self.get(i));
            i = i + 1;
        }
        out
    }

    /// Every position with its membership as `0` or `1`, in order.
    pub fn entries(&self) -> (r: Vec<(usize, u8)>)
        requires
            self.wf(),
        ensures
            r@.len() == self@.len(),
            forall|i: int| 0 <= i < r@.len() ==> #[trigger] r@[i] == (i as usize, if self@[i] { 1u8 } else { 0u8 }),
    {
        let mut out: Vec<(usize, u8)> = Vec::new();
        let mut i: usize = 0;
        while i < self.length
            invariant
                self.wf(),
                i <= self@.len(),
                out@.len() == i,
                forall|j: int| 0 <= j < i ==> #[trigger] out@[j] == (j as usize, if self@[j] { 1u8 } else { 0u8 }),
            decreases self@.len() - i,
        {
            out.push((i, self.get(i)));
            i = i + 1;
        }
        out
    }

    /// A copy of the packed words.
    pub fn to_json(&self) -> (r: Vec<u32>)
        requires
            self.wf(),
        ensures
            r@ == self.word_seq(),
            r@.len() == words_for(self@.len()),
            forall|w: int, k: int|
                0 <= w < r@.len() && 0 <= k < 32 ==> (#[trigger] word_bit(r@[w], k) <==> (32 * w + k
                    < self@.len() && self@[32 * w + k])),
    {
        let mut out: Vec<u32> = Vec::new();
        let mut i: usize = 0;
        while i < self.words.len()
            invariant
                i <= self.words@.len(),
                out@ == self.words@.take(i as int),
            decreases self.words@.len() - i,
        {
            out.push(self.words[i]);
            i = i + 1;
            proof {
                assert(out@ =~= self.words@.take(i as int));
            }
        }
        proof {
            assert(out@ =~= self.words@);
            assert forall|w: int, k: int| 0 <= w < out@.len() && 0 <= k < 32 implies (#[trigger] word_bit(out@[w], k)
                <==> (32 * w + k < self@.len() && self@[32 * w + k])) by {
                let i = 32 * w + k;
                assert(i / 32 == w && i % 32 == k);
            }
        }
        out
    }
}

/// A sequence has at most as many set bits as entries.
proof fn lemma_count_le_len(s: Seq<bool>)
    ensures
        count_true(s) <= s.len(),
{
    lemma_count_take_monotone(s, 0, s.len() as int);
    lemma_count_take_full(s);
    assert(s.take(0) =~= Seq::<bool>::empty());
}

/// Testing a word against a one-bit mask reads that bit.
proof fn lemma_mask_test(w: u32, pos: u32)
    requires
        pos < 32,
    ensures
        (w & (1u32 << pos) != 0) == word_bit(w, pos as int),
{
    assert((w & (1u32 << pos) != 0) == ((w >> pos) & 1 == 1)) by (bit_vector)
        requires pos < 32;
}

} // verus!
