//! A growable vector of bits.
use vstd::prelude::*;
use crate::bit_model::{
    count_true, is_select, lemma_count_take_full, lemma_count_take_monotone, lemma_count_take_succ,
    lemma_set_bit_u32, word_bit,
};
use crate::std_wrappers::{vec_capacity, vec_reserve_exact};

verus! {

/// What a pop gives for the bits `v`: nothing and `v` when empty, else the
/// last bit as a number and the bits before it.
pub open spec fn popped(v: Seq<bool>) -> (Option<u8>, Seq<bool>) {
    if v.len() == 0 {
        (None, v)
    } else {
        (Some(if v.last() { 1u8 } else { 0u8 }), v.drop_last())
    }
}

/// A pop undoes a push: it gives back the bit pushed and the bits before.
pub proof fn lemma_pop_undoes_push(v: Seq<bool>, bit: bool)
    ensures
        popped(v.push(bit)) == (Some(if bit { 1u8 } else { 0u8 }), v),
{
    assert(v.push(bit).drop_last() =~= v);
}

/// A growable sequence of bits, each stored as the byte `0` or `1`.
#[derive(Debug, Clone)]
pub struct BitVector {
    bits: Vec<u8>,
}

/// The boolean that a stored byte stands for.
pub open spec fn byte_bit(b: u8) -> bool {
    b == 1
}

impl View for BitVector {
    type V = Seq<bool>;

    closed spec fn view(&self) -> Seq<bool> {
        self.bits@.map_values(|b: u8| byte_bit(b))
    }
}

impl BitVector {
    /// Every stored byte is `0` or `1`, and the length fits an `isize`.
    pub closed spec fn wf(&self) -> bool {
        &&& forall|i: int| 0 <= i < self.bits@.len() ==> #[trigger] self.bits@[i] <= 1
        &&& self.bits@.len() <= isize::MAX
    }

    /// An empty bit vector.
    pub fn new() -> (r: Self)
        ensures
            r.wf(),
            r@ == Seq::<bool>::empty(),
    {
        let r = BitVector { bits: Vec::new() };
        assert(r@ =~= Seq::<bool>::empty());
        r
    }

    /// A bit vector of `length` cleared bits.
    pub fn with_length(length: usize) -> (r: Self)
        requires
            length <= isize::MAX,
        ensures
            r.wf(),
            r@ == Seq::new(length as nat, |i: int| false),
    {
        let mut bits: Vec<u8> = Vec::new();
        let mut i: usize = 0;
        while i < length
            invariant
                i <= length,
                bits@.len() == i,
                forall|j: int| 0 <= j < i ==> bits@[j] == 0,
            decreases length - i,
        {
            bits.push(0);
            i = i + 1;
        }
        let r = BitVector { bits };
        assert(r@ =~= Seq::new(length as nat, |i: int| false));
        r
    }

    /// The number of bits.
    pub fn length(&self) -> (r: usize)
        ensures
            r == self@.len(),
    {
        self.bits.len()
    }

    /// The number of set bits.
    pub fn size(&self) -> (r: usize)
        requires
            self.wf(),
        ensures
            r == count_true(self@),
    {
        let mut count: usize = 0;
        let mut i: usize = 0;
        while i < self.bits.len()
            invariant
                self.wf(),
                i <= self.bits@.len(),
                count == count_true(self@.take(i as int)),
                count <= i,
            decreases self.bits@.len() - i,
        {
            proof {
                lemma_count_take_succ(self@, i as int);
            }
            if self.bits[i] == 1 {
                count = count + 1;
            }
            i = i + 1;
        }
        proof {
            lemma_count_take_full(self@);
        }
        count
    }

    /// Appends a bit and returns the new length.
    pub fn push(&mut self, bit: bool) -> (r: usize)
        requires
            old(self).wf(),
            old(self)@.len() < isize::MAX,
        ensures
            final(self).wf(),
            final(self)@ == old(self)@.push(bit),
            r == final(self)@.len(),
    {
        let b: u8 = if bit { 1 } else { 0 };
        self.bits.push(b);
        proof {
            assert(self@ =~= old(self)@.push(bit));
        }
        self.bits.len()
    }

    /// Removes the last bit and returns it as `0` or `1`.
    pub fn pop(&mut self) -> (r: Option<u8>)
        requires
            old(self).wf(),
        ensures
            final(self).wf(),
            (r, final(self)@) == popped(old(self)@),
            old(self)@.len() == 0 ==> r == None::<u8> && final(self)@ == old(self)@,
            old(self)@.len() > 0 ==> r == Some(
                if old(self)@.last() { 1u8 } else { 0u8 },
            ) && final(self)@ == old(self)@.drop_last(),
    {
        let r = self.bits.pop();
        proof {
            if old(self)@.len() > 0 {
                assert(self@ =~= old(self)@.drop_last());
            }
        }
        r
    }

    /// Sets the bit at `index` to `bit`. Returns whether the stored value
    /// changed; an index out of bounds changes nothing.
    pub fn set(&mut self, index: usize, bit: bool) -> (changed: bool)
        requires
            old(self).wf(),
        ensures
            final(self).wf(),
            index >= old(self)@.len() ==> !changed && final(self)@ == old(self)@,
            index < old(self)@.len() ==> final(self)@ == old(self)@.update(index as int, bit)
                && changed == (old(self)@[index as int] != bit),
    {
        if index >= self.bits.len() {
            return false;
        }
        let new_value: u8 = if bit { 1 } else { 0 };
        let changed = self.bits[index] != new_value;
        self.bits.set(index, new_value);
        proof {
            assert(self@ =~= old(self)@.update(index as int, bit));
        }
        changed
    }

    /// The bit at `index` as `0` or `1`; `0` out of bounds.
    pub fn get(&self, index: usize) -> (r: u8)
        requires
            self.wf(),
        ensures
            r == if index < self@.len() && self@[index as int] { 1u8 } else { 0u8 },
    {
        if index < self.bits.len() {
            self.bits[index]
        } else {
            0
        }
    }

    /// Whether the bit at `index` is set; `false` out of bounds.
    pub fn test(&self, index: usize) -> (r: bool)
        requires
            self.wf(),
        ensures
            r == (index < self@.len() && self@[index as int]),
    {
        self.get(index) == 1
    }

    /// The number of set bits strictly before `index`.
    pub fn rank(&self, index: usize) -> (r: usize)
        requires
            self.wf(),
        ensures
            r == count_true(self@.take(if index < self@.len() { index as int } else { self@.len() as int })),
    {
        let end = if index < self.bits.len() { index } else { self.bits.len() };
        let mut count: usize = 0;
        let mut i: usize = 0;
        while i < end
            invariant
                self.wf(),
                end <= self.bits@.len(),
                i <= end,
                count == count_true(self@.take(i as int)),
                count <= i,
            decreases end - i,
        {
            proof {
                lemma_count_take_succ(self@, i as int);
            }
            if self.bits[i] == 1 {
                count = count + 1;
            }
            i = i + 1;
        }
        count
    }

    /// The index of the `r`-th set bit (counting from one), or `-1` when
    /// `r` is zero or fewer than `r` bits are set.
    pub fn select(&self, r: usize) -> (res: isize)
        requires
            self.wf(),
        ensures
            (r == 0 || count_true(self@) < r) ==> res == -1,
            (r > 0 && count_true(self@) >= r) ==> is_select(self@, r as nat, res as int),
    {
        if r == 0 {
            return -1;
        }
        let mut seen: usize = 0;
        let mut i: usize = 0;
        while i < self.bits.len()
            invariant
                self.wf(),
                r > 0,
                i <= self.bits@.len(),
                seen == count_true(self@.take(i as int)),
                seen < r,
            decreases self.bits@.len() - i,
        {
            proof {
                lemma_count_take_succ(self@, i as int);
            }
            if self.bits[i] == 1 {
                seen = seen + 1;
                if seen == r {
                    proof {
                        lemma_count_take_monotone(self@, i + 1, self@.len() as int);
                        lemma_count_take_full(self@);
                    }
                    return i as isize;
                }
            }
            i = i + 1;
        }
        proof {
            lemma_count_take_full(self@);
        }
        -1
    }

    /// The bits, in order, as `0` or `1`.
    pub fn values(&self) -> (r: Vec<u8>)
        requires
            self.wf(),
        ensures
            r@.len() == self@.len(),
            forall|i: int| 0 <= i < r@.len() ==> #[trigger] r@[i] == if self@[i] { 1u8 } else { 0u8 },
    {
        let mut out: Vec<u8> = Vec::new();
        let mut i: usize = 0;
        while i < self.bits.len()
            invariant
                self.wf(),
                i <= self.bits@.len(),
                out@.len() == i,
                forall|j: int| 0 <= j < i ==> #[trigger] out@[j] == if self@[j] { 1u8 } else { 0u8 },
            decreases self.bits@.len() - i,
        {
            out.push(self.bits[i]);
            i = i + 1;
        }
        out
    }

    /// The pairs of index and bit, in order.
    pub fn entries(&self) -> (r: Vec<(usize, u8)>)
        requires
            self.wf(),
        ensures
            r@.len() == self@.len(),
            forall|i: int|
                0 <= i < r@.len() ==> #[trigger] r@[i] == (i as usize, if self@[i] { 1u8 } else { 0u8 }),
    {
        let mut out: Vec<(usize, u8)> = Vec::new();
        let mut i: usize = 0;
        while i < self.bits.len()
            invariant
                self.wf(),
                i <= self.bits@.len(),
                out@.len() == i,
                forall|j: int|
                    0 <= j < i ==> #[trigger] out@[j] == (j as usize, if self@[j] { 1u8 } else { 0u8 }),
            decreases self.bits@.len() - i,
        {
            out.push((i, self.bits[i]));
            i = i + 1;
        }
        out
    }

    /// Clears the bit at `index`; nothing happens out of bounds.
    pub fn reset(&mut self, index: usize)
        requires
            old(self).wf(),
        ensures
            final(self).wf(),
            index >= old(self)@.len() ==> final(self)@ == old(self)@,
            index < old(self)@.len() ==> final(self)@ == old(self)@.update(index as int, false),
    {
        if index < self.bits.len() {
            self.bits.set(index, 0);
            proof {
                assert(self@ =~= old(self)@.update(index as int, false));
            }
        }
    }

    /// Inverts the bit at `index`; nothing happens out of bounds.
    pub fn flip(&mut self, index: usize)
        requires
            old(self).wf(),
        ensures
            final(self).wf(),
            index >= old(self)@.len() ==> final(self)@ == old(self)@,
            index < old(self)@.len() ==> final(self)@ == old(self)@.update(
                index as int,
                !old(self)@[index as int],
            ),
    {
        if index < self.bits.len() {
            let b = self.bits[index];
            let nb: u8 = if b == 1 { 0 } else { 1 };
            self.bits.set(index, nb);
            proof {
                assert(self@ =~= old(self)@.update(index as int, !old(self)@[index as int]));
            }
        }
    }

    /// Makes room for `new_capacity` bits; the bits are unchanged.
    pub fn reallocate(&mut self, new_capacity: usize)
        requires
            old(self).wf(),
            new_capacity <= isize::MAX,
        ensures
            final(self).wf(),
            final(self)@ == old(self)@,
    {
        broadcast use vstd::layout::layout_of_primitives;

        if new_capacity > self.bits.len() {
            let additional = new_capacity - self.bits.len();
            vec_reserve_exact(&mut self.bits, additional);
        }
    }

    /// Makes room for at least `desired_capacity` bits; the bits are
    /// unchanged.
    pub fn grow(&mut self, desired_capacity: usize)
        requires
            old(self).wf(),
        ensures
            final(self).wf(),
            final(self)@ == old(self)@,
    {
        let capacity = vec_capacity(&self.bits);
        if desired_capacity > capacity {
            let additional = desired_capacity - self.bits.len();
            self.bits.reserve(additional);
        }
    }

    /// Truncates to `new_length` bits, or extends with cleared bits.
    pub fn resize(&mut self, new_length: usize)
        requires
            old(self).wf(),
            new_length <= isize::MAX,
        ensures
            final(self).wf(),
            final(self)@.len() == new_length,
            forall|i: int|
                0 <= i < new_length ==> #[trigger] final(self)@[i] == (i < old(self)@.len()
                    && old(self)@[i]),
    {
        if new_length <= self.bits.len() {
            self.bits.truncate(new_length);
        } else {
            while self.bits.len() < new_length
                invariant
                    old(self).bits@.len() <= self.bits@.len() <= new_length,
                    forall|i: int| 0 <= i < old(self).bits@.len() ==> #[trigger] self.bits@[i] == old(self).bits@[i],
                    forall|i: int| old(self).bits@.len() <= i < self.bits@.len() ==> #[trigger] self.bits@[i] == 0,
                    old(self).wf(),
                decreases new_length - self.bits@.len(),
            {
                self.bits.push(0);
            }
        }
    }

    /// The number of bits the vector can hold without reallocating; what
    /// the allocator hands out beyond the length is not stated.
    pub fn capacity(&self) -> (r: usize)
        ensures
            r >= self@.len(),
    {
        vec_capacity(&self.bits)
    }

    /// The bits packed into 32-bit words, least significant bit first.
    pub fn to_json(&self) -> (r: Vec<u32>)
        requires
            self.wf(),
        ensures
            r@.len() == (self@.len() + 31) / 32,
            forall|w: int, k: int|
                0 <= w < r@.len() && 0 <= k < 32 ==> (#[trigger] word_bit(r@[w], k)
                    <==> (32 * w + k < self@.len() && self@[32 * w + k])),
    {
        let mut words: Vec<u32> = Vec::new();
        let n = self.bits.len();
        let mut start: usize = 0;
        while start < n
            invariant
                self.wf(),
                n == self.bits@.len(),
                start == 32 * words@.len(),
                start > 0 ==> start - 32 < n,
                forall|w: int, k: int|
                    0 <= w < words@.len() && 0 <= k < 32 ==> (#[trigger] word_bit(words@[w], k) <==> (32 * w + k < self@.len() && self@[32 * w + k])),
                start < n + 32,
            decreases n + 32 - start,
        {
            let word = pack_word(&self.bits, start);
            proof {
                let w = words@.len() as int;
                assert forall|k: int| 0 <= k < 32 implies (word_bit(word, k) <==> (32 * w
                    + k < self@.len() && self@[32 * w + k])) by {
                    assert(start + k == 32 * w + k);
                }
            }
            words.push(word);
            start = start + 32;
        }
        proof {
            let w = words@.len() as int;
            assert(w == (n + 31) / 32) by (nonlinear_arith)
                requires
                    32 * w >= n,
                    w > 0 ==> 32 * w - 32 < n,
                    w >= 0,
                    n >= 0,
            ;
        }
        words
    }
}

/// Packs the 32 bits that start at `start` into one word, bit `k` of the
/// word holding the bit at `start + k` (cleared past the end).
fn pack_word(bits: &Vec<u8>, start: usize) -> (word: u32)
    requires
        forall|i: int| 0 <= i < bits@.len() ==> #[trigger] bits@[i] <= 1,
        start < bits@.len(),
        bits@.len() <= isize::MAX,
    ensures
        forall|k: int|
            0 <= k < 32 ==> (#[trigger] word_bit(word, k) <==> (start + k < bits@.len() && bits@[start
                + k] == 1)),
{
    let mut word: u32 = 0;
    let mut i: u32 = 0;
    proof {
        assert forall|k: int| 0 <= k < 32 implies !word_bit(0u32, k) by {
            let ku = k as u32;
            assert((0u32 >> ku) & 1 == 0) by (bit_vector);
        }
    }
    while i < 32
        invariant
            i <= 32,
            start < bits@.len(),
            bits@.len() <= isize::MAX,
            forall|j: int| 0 <= j < bits@.len() ==> #[trigger] bits@[j] <= 1,
            forall|k: int|
                0 <= k < i ==> (#[trigger] word_bit(word, k) <==> (start + k < bits@.len()
                    && bits@[start + k] == 1)),
            forall|k: int| i <= k < 32 ==> !#[trigger] word_bit(word, k),
        decreases 32 - i,
    {
        let idx = start + i as usize;
        if idx < bits.len() && bits[idx] == 1 {
            let old_word = word;
            word = word | (1u32 << i);
            proof {
                lemma_set_bit_u32(old_word, i);
                assert forall|k: int| 0 <= k < 32 && k != i implies word_bit(word, k) == word_bit(
                    old_word,
                    k,
                ) by {
                    let ku = k as u32;
                    assert(((old_word | (1u32 << i)) >> ku) & 1 == (old_word >> ku) & 1);
                }
                assert(word_bit(word, i as int));
            }
        }
        i = i + 1;
    }
    word
}

} // verus!
