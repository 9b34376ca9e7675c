//! Mathematical model shared by the bit containers: sequences of booleans,
//! the number of set bits in them, and the position of the r-th set bit.
use vstd::prelude::*;

verus! {

/// Number of `true` entries of `s`.
pub open spec fn count_true(s: Seq<bool>) -> nat
    decreases s.len(),
{
    if s.len() == 0 {
        0
    } else {
        count_true(s.drop_last()) + if s.last() { 1nat } else { 0nat }
    }
}

/// `i` holds the `r`-th set bit of `s` (counting from one).
pub open spec fn is_select(s: Seq<bool>, r: nat, i: int) -> bool {
    &&& 0 <= i < s.len()
    &&& s[i]
    &&& count_true(s.take(i + 1)) == r
}

/// The count of a prefix grows by the bit that follows it.
pub proof fn lemma_count_take_succ(s: Seq<bool>, i: int)
    requires
        0 <= i < s.len(),
    ensures
        count_true(s.take(i + 1)) == count_true(s.take(i)) + if s[i] { 1nat } else { 0nat },
{
    assert(s.take(i + 1).drop_last() =~= s.take(i));
}

/// Counting the whole sequence is counting its full prefix.
pub proof fn lemma_count_take_full(s: Seq<bool>)
    ensures
        count_true(s.take(s.len() as int)) == count_true(s),
{
    assert(s.take(s.len() as int) =~= s);
}

/// The count of a prefix never exceeds its length, and prefix counts grow.
pub proof fn lemma_count_take_monotone(s: Seq<bool>, i: int, j: int)
    requires
        0 <= i <= j <= s.len(),
    ensures
        count_true(s.take(i)) <= count_true(s.take(j)),
        count_true(s.take(j)) <= count_true(s.take(i)) + (j - i),
    decreases j - i,
{
    if i < j {
        lemma_count_take_monotone(s, i, j - 1);
        lemma_count_take_succ(s, j - 1);
    }
}

/// Setting one entry changes the count by the difference at that entry.
pub proof fn lemma_count_update(s: Seq<bool>, k: int, b: bool)
    requires
        0 <= k < s.len(),
    ensures
        count_true(s.update(k, b)) + (if s[k] { 1int } else { 0int }) == count_true(s) + (if b {
            1int
        } else {
            0int
        }),
    decreases s.len(),
{
    let t = s.update(k, b);
    if k == s.len() - 1 {
        assert(t.drop_last() =~= s.drop_last());
    } else {
        assert(t.drop_last() =~= s.drop_last().update(k, b));
        lemma_count_update(s.drop_last(), k, b);
    }
}

/// A sequence of `false` has no set bit.
pub proof fn lemma_count_all_false(s: Seq<bool>)
    requires
        forall|i: int| 0 <= i < s.len() ==> !s[i],
    ensures
        count_true(s) == 0,
    decreases s.len(),
{
    if s.len() > 0 {
        lemma_count_all_false(s.drop_last());
    }
}

/// Appending one bit adds it to the count.
pub proof fn lemma_count_push(s: Seq<bool>, b: bool)
    ensures
        count_true(s.push(b)) == count_true(s) + if b { 1nat } else { 0nat },
{
    assert(s.push(b).drop_last() =~= s);
}

/// There is at most one position of the r-th set bit.
pub proof fn lemma_select_unique(s: Seq<bool>, r: nat, i: int, j: int)
    requires
        is_select(s, r, i),
        is_select(s, r, j),
    ensures
        i == j,
{
    if i < j {
        lemma_count_take_monotone(s, i + 1, j);
        lemma_count_take_succ(s, j);
    } else if j < i {
        lemma_count_take_monotone(s, j + 1, i);
        lemma_count_take_succ(s, i);
    }
}

/// When fewer than `r` bits are set, no position holds the r-th one.
pub proof fn lemma_no_select_when_short(s: Seq<bool>, r: nat, i: int)
    requires
        count_true(s) < r,
        0 <= i < s.len(),
    ensures
        !is_select(s, r, i),
{
    lemma_count_take_monotone(s, i + 1, s.len() as int);
    lemma_count_take_full(s);
}

/// Whether bit `k` (least significant first) of the word `w` is set.
pub open spec fn word_bit(w: u32, k: int) -> bool {
    (w >> (k as u32)) & 1 == 1
}

/// Setting bit `i` of a word sets that bit and leaves the others.
pub proof fn lemma_set_bit_u32(w: u32, i: u32)
    requires
        i < 32,
    ensures
        forall|k: u32| k < 32 && k != i ==> ((w | (1u32 << i)) >> k) & 1 == (w >> k) & 1,
        ((w | (1u32 << i)) >> i) & 1 == 1,
{
    assert(forall|k: u32| k < 32 && k != i ==> ((w | (1u32 << i)) >> k) & 1 == (w >> k) & 1)
        by (bit_vector)
        requires i < 32;
    assert(((w | (1u32 << i)) >> i) & 1 == 1) by (bit_vector)
        requires i < 32;
}

/// Setting bit `i` sets it and keeps every other bit, stated per bit.
pub proof fn lemma_word_set(w: u32, i: u32)
    requires
        i < 32,
    ensures
        word_bit(w | (1u32 << i), i as int),
        forall|k: int| 0 <= k < 32 && k != i ==> #[trigger] word_bit(w | (1u32 << i), k) == word_bit(w, k),
{
    lemma_set_bit_u32(w, i);
    assert forall|k: int| 0 <= k < 32 && k != i implies #[trigger] word_bit(w | (1u32 << i), k) == word_bit(w, k) by {
        let ku = k as u32;
        assert(((w | (1u32 << i)) >> ku) & 1 == (w >> ku) & 1);
    }
}

/// Clearing bit `i` clears it and keeps every other bit, stated per bit.
pub proof fn lemma_word_clear(w: u32, i: u32)
    requires
        i < 32,
    ensures
        !word_bit(w & !(1u32 << i), i as int),
        forall|k: int| 0 <= k < 32 && k != i ==> #[trigger] word_bit(w & !(1u32 << i), k) == word_bit(w, k),
{
    assert(forall|k: u32| k < 32 && k != i ==> ((w & !(1u32 << i)) >> k) & 1 == (w >> k) & 1)
        by (bit_vector)
        requires i < 32;
    assert(((w & !(1u32 << i)) >> i) & 1 == 0) by (bit_vector)
        requires i < 32;
    assert forall|k: int| 0 <= k < 32 && k != i implies #[trigger] word_bit(w & !(1u32 << i), k) == word_bit(w, k) by {
        let ku = k as u32;
        assert(((w & !(1u32 << i)) >> ku) & 1 == (w >> ku) & 1);
    }
}

/// No bit of the zero word is set.
pub proof fn lemma_word_zero()
    ensures
        forall|k: int| 0 <= k < 32 ==> !#[trigger] word_bit(0u32, k),
{
    assert forall|k: int| 0 <= k < 32 implies !#[trigger] word_bit(0u32, k) by {
        let ku = k as u32;
        assert((0u32 >> ku) & 1 == 0) by (bit_vector);
    }
}

/// Reading bit `pos` of a word with a shift and mask.
pub proof fn lemma_word_read(w: u32, pos: u32)
    requires
        pos < 32,
    ensures
        ((w >> pos) & 1 == 1) == word_bit(w, pos as int),
        (w >> pos) & 1 <= 1,
{
    assert((w >> pos) & 1 <= 1) by (bit_vector);
}

/// Splitting an index into its word and bit position.
pub proof fn lemma_index_split(i: usize)
    ensures
        i >> 5 == i / 32,
        i & 31 == i % 32,
{
    assert(i >> 5 == i / 32) by (bit_vector);
    assert(i & 31 == i % 32) by (bit_vector);
}

} // verus!
