//! Bloom filters: one that hashes the UTF-16 code units of strings with
//! MurmurHash3, and a generic one over `Hash` values.
use vstd::prelude::*;
use std::collections::hash_map::DefaultHasher;
use std::hash::{Hash, Hasher};
use vstd::bytes::{spec_u64_to_le_bytes, u64_to_le_bytes};
use vstd::std_specs::hash::DefaultHasherAdditionalSpecFns;
use vstd::wrapping::u32_specs::{wrapping_add as wrapping_add_u32, wrapping_mul as wrapping_mul_u32};
use vstd::wrapping::u64_specs::{wrapping_add as wrapping_add_u64, wrapping_mul as wrapping_mul_u64};

verus! {

/// The UTF-16 code units of one character.
pub open spec fn utf16_units(c: char) -> Seq<u16> {
    let v = c as u32;
    if v < 0x10000 {
        seq![v as u16]
    } else {
        seq![(0xD800 + ((v - 0x10000) / 0x400)) as u16, (0xDC00 + ((v - 0x10000) % 0x400)) as u16]
    }
}

/// The UTF-16 encoding of a character sequence.
pub open spec fn utf16(s: Seq<char>) -> Seq<u16>
    decreases s.len(),
{
    if s.len() == 0 {
        seq![]
    } else {
        utf16(s.drop_last()) + utf16_units(s.last())
    }
}

/// Rotation of a 32-bit word left by `r` places (`0 < r < 32`).
pub open spec fn rotl32(x: u32, r: u32) -> u32 {
    (x << r) | (x >> ((32 - r) as u32))
}

/// The mixing of one 32-bit block in MurmurHash3.
pub open spec fn scramble(k: u32) -> u32 {
    wrapping_mul_u32(rotl32(wrapping_mul_u32(k, 0xcc9e2d51), 15), 0x1b873593)
}

/// The addition by 16-bit halves that this MurmurHash3 uses.
pub open spec fn spec_sum32(a: u32, b: u32) -> u32 {
    wrapping_add_u32(
        wrapping_add_u32(a & 0xffff, b >> 16),
        (wrapping_add_u32(a >> 16, b) & 0xffff) << 16,
    )
}

/// Four code units starting at `i`, packed into one word, each unit
/// shifted by a multiple of 8 bits.
pub open spec fn block_at(data: Seq<u16>, i: int) -> u32 {
    (data[i] as u32) | ((data[i + 1] as u32) << 8u32) | ((data[i + 2] as u32) << 16u32) | ((data[i + 3] as u32) << 24u32)
}

/// The state after the first `nb` blocks.
pub open spec fn murmur_body(seed: u32, data: Seq<u16>, nb: int) -> u32
    decreases nb,
{
    if nb <= 0 {
        seed
    } else {
        let h = murmur_body(seed, data, nb - 1);
        spec_sum32(wrapping_mul_u32(rotl32(h ^ scramble(block_at(data, 4 * (nb - 1))), 13), 5), 0x6b64e654)
    }
}

/// The trailing units, fewer than four, packed into one word.
pub open spec fn tail_word(data: Seq<u16>, i: int, rem: int) -> u32 {
    let a: u32 = if rem == 3 { (data[i + 2] as u32) << 16u32 } else { 0 };
    let b: u32 = if rem >= 2 { a ^ ((data[i + 1] as u32) << 8u32) } else { a };
    if rem >= 1 { b ^ (data[i] as u32) } else { b }
}

/// The final avalanche of MurmurHash3.
pub open spec fn fmix32(h: u32) -> u32 {
    let h1 = h ^ (h >> 16u32);
    let h2 = wrapping_mul_u32(h1, 0x85ebca6b);
    let h3 = h2 ^ (h2 >> 13u32);
    let h4 = wrapping_mul_u32(h3, 0xc2b2ae35);
    h4 ^ (h4 >> 16u32)
}

/// MurmurHash3 (32-bit) of the UTF-16 units `data`, with the packing and
/// addition above.
#[verifier::opaque]
pub open spec fn spec_murmurhash3(seed: u32, data: Seq<u16>) -> u32 {
    let nb = data.len() / 4;
    let rem = data.len() % 4;
    let h = murmur_body(seed, data, nb as int);
    let h2 = if rem >= 1 { h ^ scramble(tail_word(data, (4 * nb) as int, rem as int)) } else { h };
    fmix32(h2 ^ (data.len() as u32))
}

/// Exclusive or with zero keeps a word.
proof fn lemma_xor_zero(x: u32)
    ensures
        0u32 ^ x == x,
{
    assert(0u32 ^ x == x) by (bit_vector);
}

/// Rotates a word left.
fn rotl(x: u32, r: u32) -> (y: u32)
    requires
        0 < r < 32,
    ensures
        y == rotl32(x, r),
{
    (x << r) | (x >> (32 - r))
}

/// The UTF-16 code units of `value`.
pub fn encode_utf16(value: &str) -> (r: Vec<u16>)
    ensures
        r@ == utf16(value@),
{
    let cs = crate::text::chars_of(value);
    let mut out: Vec<u16> = Vec::new();
    let mut i: usize = 0;
    while i < cs.len()
        invariant
            cs@ == value@,
            i <= cs@.len(),
            out@ == utf16(cs@.take(i as int)),
        decreases cs@.len() - i,
    {
        let c = cs[i];
        let v = c as u32;
        proof {
            assert(cs@.take(i + 1).drop_last() =~= cs@.take(i as int));
            assert(cs@.take(i + 1).last() == c);
        }
        if v < 0x10000 {
            out.push(v as u16);
        } else {
            out.push((0xD800 + (v - 0x10000) / 0x400) as u16);
            out.push((0xDC00 + (v - 0x10000) % 0x400) as u16);
        }
        i = i + 1;
        proof {
            assert(out@ =~= utf16(cs@.take(i as int)));
        }
    }
    proof {
        assert(cs@.take(cs@.len() as int) =~= cs@);
    }
    out
}

/// The addition by 16-bit halves that this MurmurHash3 uses.
pub fn sum32(a: u32, b: u32) -> (r: u32)
    ensures
        r == spec_sum32(a, b),
{
    (a & 0xffff).wrapping_add(b >> 16).wrapping_add((((a >> 16).wrapping_add(b)) & 0xffff) << 16)
}

/// MurmurHash3 of the UTF-16 code units of `value`.
pub fn murmurhash3(seed: u32, value: &str) -> (r: u32)
    ensures
        r == spec_murmurhash3(seed, utf16(value@)),
{
    let data = encode_utf16(value);
    murmurhash3_units(seed, &data)
}

/// One block step of MurmurHash3 over the units at `i`.
fn murmur_step(hash: u32, data: &Vec<u16>, i: usize) -> (r: u32)
    requires
        i + 3 < data.len(),
    ensures
        r == spec_sum32(wrapping_mul_u32(rotl32(hash ^ scramble(block_at(data@, i as int)), 13), 5), 0x6b64e654),
{
    let a = data[i] as u32;
    let b = data[i + 1] as u32;
    let c = data[i + 2] as u32;
    let d = data[i + 3] as u32;
    let mut k1: u32 = a | (b << 8) | (c << 16) | (d << 24);
    k1 = rotl(k1.wrapping_mul(0xcc9e2d51), 15).wrapping_mul(0x1b873593);
    let h = hash ^ k1;
    sum32(rotl(h, 13).wrapping_mul(5), 0x6b64e654)
}

/// MurmurHash3 of UTF-16 code units.
#[verifier::rlimit(40)]
fn murmurhash3_units(seed: u32, data: &Vec<u16>) -> (r: u32)
    ensures
        r == spec_murmurhash3(seed, data@),
{
    let n = data.len();
    let mut hash = seed;
    let mut i: usize = 0;
    let ghost mut nb: int = 0;
    while i + 3 < n
        invariant
            n == data@.len(),
            i == 4 * nb,
            0 <= nb,
            i <= n,
            hash == murmur_body(seed, data@, nb),
        decreases n - i,
    {
        hash = murmur_step(hash, data, i);
        proof {
            assert(4 * (nb + 1 - 1) == i);
            nb = nb + 1;
        }
        i = i + 4;
    }
    proof {
        assert(n - i < 4);
        assert(i / 4 == nb) by (nonlinear_arith)
            requires
                i == 4 * nb,
                0 <= nb,
        ;
        assert(n / 4 == nb) by (nonlinear_arith)
            requires
                i == 4 * nb,
                0 <= nb,
                i <= n,
                n - i < 4,
        ;
        assert(4 * (n / 4) == i);
    }
    let rem = n & 3;
    proof {
        assert(n & 3 == n % 4) by (bit_vector);
        reveal(spec_murmurhash3);
    }
    let mut k1: u32 = 0;
    if rem == 3 {
        k1 = k1 ^ (data[i + 2] as u32) << 16;
    }
    if rem >= 2 {
        k1 = k1 ^ (data[i + 1] as u32) << 8;
    }
    if rem >= 1 {
        k1 = k1 ^ data[i] as u32;
        proof {
            assert(k1 == tail_word(data@, i as int, rem as int)) by {
                if rem == 3 {
                    lemma_xor_zero((data@[i + 2] as u32) << 16u32);
                } else if rem == 2 {
                    lemma_xor_zero((data@[i + 1] as u32) << 8u32);
                } else {
                    lemma_xor_zero(data@[i as int] as u32);
                }
            }
        }
        k1 = rotl(k1.wrapping_mul(0xcc9e2d51), 15).wrapping_mul(0x1b873593);
        hash = hash ^ k1;
    }
    hash = hash ^ (n as u32);
    hash = hash ^ (hash >> 16);
    hash = hash.wrapping_mul(0x85ebca6b);
    hash = hash ^ (hash >> 13);
    hash = hash.wrapping_mul(0xc2b2ae35);
    hash ^ (hash >> 16)
}


/// Bit `k` (least significant first) of a byte.
pub open spec fn byte_bit(w: u8, k: int) -> bool {
    (w >> (k as u8)) & 1 == 1
}

/// Bit `b` of a byte array, bit `b % 8` of byte `b / 8`.
pub open spec fn data_bit(data: Seq<u8>, b: int) -> bool {
    byte_bit(data[b / 8], b % 8)
}

/// Setting bit `i` of a byte, stated per bit.
proof fn lemma_byte_set_bits(w: u8, i: u8)
    requires
        i < 8,
    ensures
        byte_bit(w | (1u8 << i), i as int),
        forall|k: int| 0 <= k < 8 && k != i ==> #[trigger] byte_bit(w | (1u8 << i), k) == byte_bit(w, k),
{
    lemma_byte_set(w, i);
    assert forall|k: int| 0 <= k < 8 && k != i implies #[trigger] byte_bit(w | (1u8 << i), k) == byte_bit(w, k) by {
        let ku = k as u8;
        assert(((w | (1u8 << i)) >> ku) & 1 == (w >> ku) & 1);
    }
}

/// The bit that the `seed`-th hash of `units` selects among `m` bits.
pub open spec fn js_index(seed: int, units: Seq<u16>, m: int) -> int {
    (spec_murmurhash3(wrapping_mul_u32(seed as u32, 0xfba4c795), units) as usize) as int % m
}

/// Setting bit `i` of a byte sets it and leaves the others.
proof fn lemma_byte_set(w: u8, i: u8)
    requires
        i < 8,
    ensures
        ((w | (1u8 << i)) >> i) & 1 == 1,
        forall|k: u8| k < 8 && k != i ==> ((w | (1u8 << i)) >> k) & 1 == (w >> k) & 1,
{
    assert(((w | (1u8 << i)) >> i) & 1 == 1) by (bit_vector)
        requires i < 8;
    assert(forall|k: u8| k < 8 && k != i ==> ((w | (1u8 << i)) >> k) & 1 == (w >> k) & 1) by (bit_vector)
        requires i < 8;
}

/// Testing a byte against a one-bit mask reads that bit.
proof fn lemma_byte_test(w: u8, i: u8)
    requires
        i < 8,
    ensures
        (w & (1u8 << i) != 0) == ((w >> i) & 1 == 1),
{
    assert((w & (1u8 << i) != 0) == ((w >> i) & 1 == 1)) by (bit_vector)
        requires i < 8;
}

/// No bit of the zero byte is set.
proof fn lemma_byte_zero(k: u8)
    ensures
        (0u8 >> k) & 1 == 0,
{
    assert((0u8 >> k) & 1 == 0) by (bit_vector);
}

/// Splitting a bit index into its byte and bit.
proof fn lemma_bit_split(i: usize)
    ensures
        i >> 3 == i / 8,
        i & 7 == i % 8,
{
    assert(i >> 3 == i / 8) by (bit_vector);
    assert(i & 7 == i % 8) by (bit_vector);
}

/// Setting the bit of probe `seed` extends what the set bits account for.
proof fn lemma_probe_step(orig: Seq<u8>, before: Seq<u8>, after: Seq<u8>, u: Seq<u16>, m: int, seed: int, index: int)
    requires
        m == orig.len() * 8,
        before.len() == orig.len(),
        after == before.update(index / 8, before[index / 8] | (1u8 << ((index % 8) as u8))),
        0 <= index < m,
        index == js_index(seed, u, m),
        seed >= 0,
        byte_bit(after[index / 8], index % 8),
        forall|k: int| 0 <= k < 8 && k != index % 8 ==> #[trigger] byte_bit(after[index / 8], k) == byte_bit(before[index / 8], k),
        forall|s: int| 0 <= s < seed ==> #[trigger] data_bit(before, js_index(s, u, m)),
        forall|b: int|
            0 <= b < m ==> (#[trigger] data_bit(before, b) <==> (data_bit(orig, b)
                || exists|s: int| 0 <= s < seed && #[trigger] js_index(s, u, m) == b)),
    ensures
        forall|s: int| 0 <= s < seed + 1 ==> #[trigger] data_bit(after, js_index(s, u, m)),
        forall|b: int|
            0 <= b < m ==> (#[trigger] data_bit(after, b) <==> (data_bit(orig, b)
                || exists|s: int| 0 <= s < seed + 1 && #[trigger] js_index(s, u, m) == b)),
{
    assert forall|b: int| 0 <= b < m implies (#[trigger] data_bit(after, b) <==> (data_bit(orig, b)
        || exists|s: int| 0 <= s < seed + 1 && #[trigger] js_index(s, u, m) == b)) by {
        assert(data_bit(before, b) <==> (data_bit(orig, b) || exists|s: int| 0 <= s < seed && #[trigger] js_index(s, u, m) == b));
        if b == index {
            assert(js_index(seed, u, m) == b);
        } else {
            if b / 8 == index / 8 {
                let k = b % 8;
                assert(0 <= k < 8 && k != index % 8);
                assert(byte_bit(after[index / 8], k) == byte_bit(before[index / 8], k));
                assert(data_bit(after, b) == data_bit(before, b));
            } else {
                assert(after[b / 8] == before[b / 8]);
                assert(data_bit(after, b) == data_bit(before, b));
            }
            if exists|s: int| 0 <= s < seed + 1 && #[trigger] js_index(s, u, m) == b {
                let s = choose|s: int| 0 <= s < seed + 1 && #[trigger] js_index(s, u, m) == b;
                assert(s != seed);
                assert(exists|s2: int| 0 <= s2 < seed && #[trigger] js_index(s2, u, m) == b);
            }
            if exists|s: int| 0 <= s < seed && #[trigger] js_index(s, u, m) == b {
                let s = choose|s: int| 0 <= s < seed && #[trigger] js_index(s, u, m) == b;
                assert(0 <= s < seed + 1 && js_index(s, u, m) == b);
            }
        }
    }
    assert forall|s: int| 0 <= s < seed + 1 implies #[trigger] data_bit(after, js_index(s, u, m)) by {
        let b = js_index(s, u, m);
        assert(0 <= b < m);
        assert(data_bit(after, b) <==> (data_bit(orig, b) || exists|s2: int|
            0 <= s2 < seed + 1 && #[trigger] js_index(s2, u, m) == b));
    }
}

/// The byte and the bit within it of bit index `i`.
fn bit_position(i: usize) -> (r: (usize, u8))
    ensures
        r.0 == i / 8,
        r.1 == (i % 8) as u8,
        r.1 < 8,
{
    proof {
        lemma_bit_split(i);
    }
    (i >> 3, (i & 7) as u8)
}

/// A Bloom filter over strings: `hashes` MurmurHash3 probes of their
/// UTF-16 code units into a byte array.
#[derive(Debug, Clone)]
pub struct JsBloomFilter {
    capacity: usize,
    hashes: usize,
    data: Vec<u8>,
}

impl JsBloomFilter {
    /// The bytes of the filter.
    pub closed spec fn bytes(&self) -> Seq<u8> {
        self.data@
    }

    /// The number of probes per value.
    pub closed spec fn probes(&self) -> nat {
        self.hashes as nat
    }

    /// The capacity the filter was made for.
    pub closed spec fn spec_capacity(&self) -> nat {
        self.capacity as nat
    }

    /// The filter can probe: when it probes at all it has bits, and its
    /// number of bits fits a `usize`.
    pub open spec fn usable(&self) -> bool {
        &&& self.probes() == 0 || self.bytes().len() > 0
        &&& self.bytes().len() * 8 <= usize::MAX
    }

    /// Every probe of `value` hits a set bit.
    pub open spec fn spec_test(&self, value: Seq<char>) -> bool {
        forall|s: int|
            0 <= s < self.probes() ==> #[trigger] data_bit(
                self.bytes(),
                js_index(s, utf16(value), (self.bytes().len() * 8) as int),
            )
    }

    /// `self` probes as `earlier` does, has as many bytes, and keeps every
    /// bit that `earlier` had set.
    pub open spec fn grows_from(&self, earlier: &JsBloomFilter) -> bool {
        &&& self.probes() == earlier.probes()
        &&& self.bytes().len() == earlier.bytes().len()
        &&& forall|b: int|
            0 <= b < earlier.bytes().len() * 8 && #[trigger] data_bit(earlier.bytes(), b) ==> data_bit(self.bytes(), b)
    }

    /// Growing twice is growing once.
    pub proof fn lemma_grows_trans(a: &JsBloomFilter, b: &JsBloomFilter, c: &JsBloomFilter)
        requires
            b.grows_from(a),
            c.grows_from(b),
        ensures
            c.grows_from(a),
    {
        assert forall|x: int| 0 <= x < a.bytes().len() * 8 && #[trigger] data_bit(a.bytes(), x) implies data_bit(
            c.bytes(),
            x,
        ) by {
            assert(data_bit(b.bytes(), x));
        }
    }

    /// No false negatives: a value that tests true keeps testing true
    /// however the filter grows through later adds.
    pub proof fn lemma_test_kept(earlier: &JsBloomFilter, later: &JsBloomFilter, value: Seq<char>)
        requires
            earlier.spec_test(value),
            later.grows_from(earlier),
        ensures
            later.spec_test(value),
    {
        let m = (earlier.bytes().len() * 8) as int;
        if earlier.bytes().len() == 0 {
            assert(later.bytes() =~= earlier.bytes());
        } else {
            assert forall|s: int| 0 <= s < later.probes() implies #[trigger] data_bit(
                later.bytes(),
                js_index(s, utf16(value), (later.bytes().len() * 8) as int),
            ) by {
                let b = js_index(s, utf16(value), m);
                assert(data_bit(earlier.bytes(), b));
            }
        }
    }

    /// A filter made for `capacity` values, probing `hashes` times into
    /// `length` bytes; a capacity of zero is refused.
    pub fn with_layout(capacity: usize, hashes: usize, length: usize) -> (r: Result<Self, String>)
        ensures
            capacity == 0 <==> r is Err,
            r matches Err(e) ==> e@ == "mnemonist/BloomFilter.constructor: `capacity` option should be a positive integer."@,
            r matches Ok(f) ==> f.spec_capacity() == capacity && f.probes() == hashes && f.bytes()
                == Seq::new(length as nat, |i: int| 0u8),
    {
        if capacity == 0 {
            return Err("mnemonist/BloomFilter.constructor: `capacity` option should be a positive integer.".to_owned());
        }
        let mut data: Vec<u8> = Vec::new();
        let mut i: usize = 0;
        while i < length
            invariant
                i <= length,
                data@ == Seq::new(i as nat, |j: int| 0u8),
            decreases length - i,
        {
            data.push(0);
            i = i + 1;
            proof {
                assert(data@ =~= Seq::new(i as nat, |j: int| 0u8));
            }
        }
        Ok(JsBloomFilter { capacity, hashes, data })
    }

    /// The capacity the filter was made for.
    pub fn capacity(&self) -> (r: usize)
        ensures
            r == self.spec_capacity(),
    {
        self.capacity
    }

    /// The number of probes per value.
    pub fn hashes(&self) -> (r: usize)
        ensures
            r == self.probes(),
    {
        self.hashes
    }

    /// The bytes of the filter.
    pub fn data(&self) -> (r: &[u8])
        ensures
            r@ == self.bytes(),
    {
        self.data.as_slice()
    }

    /// Clears every bit.
    pub fn clear(&mut self)
        ensures
            final(self).bytes() == Seq::new(old(self).bytes().len(), |i: int| 0u8),
            final(self).probes() == old(self).probes(),
            final(self).spec_capacity() == old(self).spec_capacity(),
    {
        let n = self.data.len();
        let mut i: usize = 0;
        while i < n
            invariant
                n == self.data@.len(),
                i <= n,
                self.hashes == old(self).hashes,
                self.capacity == old(self).capacity,
                forall|j: int| 0 <= j < i ==> #[trigger] self.data@[j] == 0u8,
            decreases n - i,
        {
            self.data.set(i, 0);
            i = i + 1;
        }
        proof {
            assert(self.data@ =~= Seq::new(old(self).bytes().len(), |i: int| 0u8));
        }
    }

    /// The bit that probe `seed` selects for the code units of a value.
    fn probe_index(&self, seed: usize, units: &Vec<u16>) -> (r: usize)
        requires
            self.usable(),
            self.bytes().len() > 0,
        ensures
            r == js_index(seed as int, units@, (self.bytes().len() * 8) as int),
            r < self.bytes().len() * 8,
    {
        let h = murmurhash3_units((seed as u32).wrapping_mul(0xfba4c795), units);
        (h as usize) % (self.data.len() * 8)
    }

    /// Adds `value`: sets the bit of every probe.
    pub fn add(&mut self, value: &str)
        requires
            old(self).usable(),
        ensures
            final(self).usable(),
            final(self).probes() == old(self).probes(),
            final(self).spec_capacity() == old(self).spec_capacity(),
            final(self).bytes().len() == old(self).bytes().len(),
            final(self).spec_test(value@),
            final(self).grows_from(old(self)),
            forall|b: int|
                0 <= b < old(self).bytes().len() * 8 ==> (#[trigger] data_bit(final(self).bytes(), b) <==> (data_bit(
                    old(self).bytes(),
                    b,
                ) || exists|s: int|
                    0 <= s < old(self).probes() && #[trigger] js_index(s, utf16(value@), (old(self).bytes().len() * 8) as int) == b)),
    {
        let units = encode_utf16(value);
        let ghost m: int = (self.data@.len() * 8) as int;
        let ghost u = units@;
        let mut seed: usize = 0;
        while seed < self.hashes
            invariant
                self.usable(),
                self.hashes == old(self).hashes,
                self.capacity == old(self).capacity,
                self.data@.len() == old(self).data@.len(),
                m == self.data@.len() * 8,
                u == utf16(value@),
                units@ == u,
                seed <= self.hashes,
                forall|s: int| 0 <= s < seed ==> #[trigger] data_bit(self.data@, js_index(s, u, m)),
                forall|b: int|
                    0 <= b < m ==> (#[trigger] data_bit(self.data@, b) <==> (data_bit(old(self).data@, b)
                        || exists|s: int| 0 <= s < seed && #[trigger] js_index(s, u, m) == b)),
            decreases self.hashes - seed,
        {
            let index = self.probe_index(seed, &units);
            let (byte, bit) = bit_position(index);
            let old_byte = self.data[byte];
            let ghost before = self.data@;
            self.data.set(byte, old_byte | (1u8 << bit));
            proof {
                lemma_byte_set_bits(old_byte, bit);
                lemma_probe_step(old(self).data@, before, self.data@, u, m, seed as int, index as int);
            }
            seed = seed + 1;
        }
    }

    /// Whether every probe of `value` hits a set bit: `false` means the
    /// value was never added.
    pub fn test(&self, value: &str) -> (r: bool)
        requires
            self.usable(),
        ensures
            r == self.spec_test(value@),
    {
        let units = encode_utf16(value);
        let ghost m: int = (self.data@.len() * 8) as int;
        let mut seed: usize = 0;
        while seed < self.hashes
            invariant
                self.usable(),
                m == self.data@.len() * 8,
                units@ == utf16(value@),
                seed <= self.hashes,
                forall|s: int| 0 <= s < seed ==> #[trigger] data_bit(self.data@, js_index(s, units@, m)),
            decreases self.hashes - seed,
        {
            let index = self.probe_index(seed, &units);
            let (byte, bit) = bit_position(index);
            proof {
                lemma_byte_test(self.data@[byte as int], bit);
            }
            if self.data[byte] & (1u8 << bit) == 0 {
                proof {
                    assert(!data_bit(self.data@, index as int));
                    assert(!data_bit(self.bytes(), js_index(seed as int, utf16(value@), (self.bytes().len() * 8) as int)));
                }
                return false;
            }
            seed = seed + 1;
        }
        true
    }
}


/// `Hash::hash` of `value` into a `DefaultHasher`. What it writes depends
/// on the type's `Hash` impl and the standard library's encoding, and is
/// left unsaid.
#[verifier::external_body]
fn hash_into<T: Hash>(value: &T, state: &mut DefaultHasher) {
    value.hash(state)
}

/// The hash that a `DefaultHasher` finishes with after `state` (the writes
/// of a value's `Hash`) and then the eight little-endian bytes of `seed`.
pub open spec fn seeded_hash(state: Seq<Seq<u8>>, seed: u64) -> u64 {
    DefaultHasher::spec_finish(state.push(spec_u64_to_le_bytes(seed)))
}

/// The pair of hashes that a filter probes with: the seed-0 hash of the
/// writes `s0`, and the seed-1 hash of the writes `s1`, raised to at least 1.
pub open spec fn hash_pair(s0: Seq<Seq<u8>>, s1: Seq<Seq<u8>>) -> (u64, u64) {
    let g = seeded_hash(s1, 1);
    (seeded_hash(s0, 0), if g > 1 { g } else { 1 })
}

/// The standard library's default hash of `value` followed by the bytes of
/// `seed`: what `value`'s `Hash` writes is left unsaid; the seed and the
/// finishing step are stated.
pub fn hash_with_seed<T: Hash>(value: &T, seed: u64) -> (r: u64)
    ensures
        exists|s: Seq<Seq<u8>>| r == #[trigger] seeded_hash(s, seed),
{
    let mut hasher = DefaultHasher::new();
    hash_into(value, &mut hasher);
    let ghost s = hasher@;
    let bytes = u64_to_le_bytes(seed);
    hasher.write(bytes.as_slice());
    let r = hasher.finish();
    proof {
        assert(r == seeded_hash(s, seed));
    }
    r
}

/// The `i`-th probe of double hashing with the hashes `h1` and `h2`.
pub open spec fn probe(h1: u64, h2: u64, i: int, m: int) -> int {
    (wrapping_add_u64(h1, wrapping_mul_u64(i as u64, h2)) as usize) as int % m
}

/// The bits after setting every probe of `h1` and `h2`.
pub open spec fn probes_set(bits: Seq<bool>, h1: u64, h2: u64, k: int) -> Seq<bool> {
    Seq::new(bits.len(), |b: int| bits[b] || exists|i: int| 0 <= i < k && #[trigger] probe(h1, h2, i, bits.len() as int) == b)
}

/// Every probe of `h1` and `h2` hits a set bit.
pub open spec fn probes_hit(bits: Seq<bool>, h1: u64, h2: u64, k: int) -> bool {
    forall|i: int| 0 <= i < k ==> bits[#[trigger] probe(h1, h2, i, bits.len() as int)]
}

/// Setting the probes of a pair of hashes makes every probe of that pair
/// hit: with the same hashes, a value added is then contained.
pub proof fn lemma_set_then_hit(bits: Seq<bool>, h1: u64, h2: u64, k: int)
    requires
        bits.len() > 0,
    ensures
        probes_hit(probes_set(bits, h1, h2, k), h1, h2, k),
{
    let m = bits.len() as int;
    let after = probes_set(bits, h1, h2, k);
    assert forall|i: int| 0 <= i < k implies after[#[trigger] probe(h1, h2, i, after.len() as int)] by {
        let b = probe(h1, h2, i, m);
        assert(0 <= b < m);
        assert(after[b] == (bits[b] || exists|j: int| 0 <= j < k && #[trigger] probe(h1, h2, j, m) == b));
    }
}

/// Setting more probes keeps every hit: a value contained stays contained
/// after later adds.
pub proof fn lemma_hit_kept(bits: Seq<bool>, h1: u64, h2: u64, k: int, g1: u64, g2: u64, j: int)
    requires
        probes_hit(bits, h1, h2, k),
    ensures
        probes_hit(probes_set(bits, g1, g2, j), h1, h2, k),
{
    let m = bits.len() as int;
    let after = probes_set(bits, g1, g2, j);
    if m == 0 {
        assert(after =~= bits);
    } else {
        assert forall|i: int| 0 <= i < k implies after[#[trigger] probe(h1, h2, i, after.len() as int)] by {
            let b = probe(h1, h2, i, m);
            assert(bits[b]);
            assert(0 <= b < m);
        }
    }
}

/// `r` lists the `k` probes of `h1` and `h2` into `m` bits.
pub open spec fn lists_probes(r: Seq<usize>, h1: u64, h2: u64, k: int, m: int) -> bool {
    r.len() == k && forall|i: int| 0 <= i < k ==> #[trigger] r[i] == probe(h1, h2, i, m)
}

/// The `k` double-hashing probes of `h1` and `h2` into `m` bits.
pub fn indexes_from_hashes(h1: u64, h2: u64, k: usize, m: usize) -> (r: Vec<usize>)
    requires
        m > 0,
    ensures
        r@.len() == k,
        forall|i: int| 0 <= i < k ==> #[trigger] r@[i] == probe(h1, h2, i, m as int),
{
    let mut out: Vec<usize> = Vec::new();
    let mut i: usize = 0;
    while i < k
        invariant
            m > 0,
            i <= k,
            out@.len() == i,
            forall|j: int| 0 <= j < i ==> #[trigger] out@[j] == probe(h1, h2, j, m as int),
        decreases k - i,
    {
        let x = h1.wrapping_add((i as u64).wrapping_mul(h2));
        out.push((x as usize) % m);
        i = i + 1;
    }
    out
}

/// A Bloom filter over values that implement `Hash`, probing by double
/// hashing.
#[derive(Debug, Clone)]
pub struct BloomFilter {
    bits: Vec<bool>,
    hashes: usize,
    inserted: usize,
}

impl BloomFilter {
    /// The bits of the filter.
    pub closed spec fn bit_seq(&self) -> Seq<bool> {
        self.bits@
    }

    /// The number of probes per value.
    pub closed spec fn probes(&self) -> nat {
        self.hashes as nat
    }

    /// The number of values added.
    pub closed spec fn added(&self) -> nat {
        self.inserted as nat
    }

    /// The filter has at least one bit and probes at least once.
    pub closed spec fn wf(&self) -> bool {
        self.bits@.len() > 0 && self.hashes > 0
    }

    /// A filter of `bits` bits probing `hashes` times (each at least one).
    pub fn with_dimensions(bits: usize, hashes: usize) -> (r: Self)
        ensures
            r.wf(),
            r.bit_seq() == Seq::new(if bits > 0 { bits as nat } else { 1 }, |i: int| false),
            r.probes() == if hashes > 0 { hashes } else { 1 },
            r.added() == 0,
    {
        let m = if bits > 0 { bits } else { 1 };
        let k = if hashes > 0 { hashes } else { 1 };
        let mut v: Vec<bool> = Vec::new();
        let mut i: usize = 0;
        while i < m
            invariant
                i <= m,
                v@ == Seq::new(i as nat, |j: int| false),
            decreases m - i,
        {
            v.push(false);
            i = i + 1;
            proof {
                assert(v@ =~= Seq::new(i as nat, |j: int| false));
            }
        }
        BloomFilter { bits: v, hashes: k, inserted: 0 }
    }

    /// The number of bits.
    pub fn capacity(&self) -> (r: usize)
        ensures
            r == self.bit_seq().len(),
    {
        self.bits.len()
    }

    /// The number of probes per value.
    pub fn hashes(&self) -> (r: usize)
        ensures
            r == self.probes(),
    {
        self.hashes
    }

    /// The number of values added.
    pub fn size(&self) -> (r: usize)
        ensures
            r == self.added(),
    {
        self.inserted
    }

    /// Clears every bit and forgets the count.
    pub fn clear(&mut self)
        requires
            old(self).wf(),
        ensures
            final(self).wf(),
            final(self).bit_seq() == Seq::new(old(self).bit_seq().len(), |i: int| false),
            final(self).probes() == old(self).probes(),
            final(self).added() == 0,
    {
        let n = self.bits.len();
        let mut i: usize = 0;
        while i < n
            invariant
                n == self.bits@.len(),
                n > 0,
                i <= n,
                self.hashes == old(self).hashes,
                forall|j: int| 0 <= j < i ==> !#[trigger] self.bits@[j],
            decreases n - i,
        {
            self.bits.set(i, false);
            i = i + 1;
        }
        self.inserted = 0;
        proof {
            assert(self.bits@ =~= Seq::new(old(self).bit_seq().len(), |i: int| false));
        }
    }

    /// The probes for `value`, from its two seeded hashes.
    fn indexes<T: Hash>(&self, value: &T) -> (r: Vec<usize>)
        requires
            self.wf(),
        ensures
            exists|s0: Seq<Seq<u8>>, s1: Seq<Seq<u8>>|
                #[trigger] lists_probes(r@, hash_pair(s0, s1).0, hash_pair(s0, s1).1, self.probes() as int, self.bit_seq().len() as int),
    {
        let h1 = hash_with_seed(value, 0);
        let h2_raw = hash_with_seed(value, 1);
        let ghost s0 = choose|s: Seq<Seq<u8>>| h1 == #[trigger] seeded_hash(s, 0);
        let ghost s1 = choose|s: Seq<Seq<u8>>| h2_raw == #[trigger] seeded_hash(s, 1);
        let h2 = if h2_raw > 1 { h2_raw } else { 1 };
        let r = indexes_from_hashes(h1, h2, self.hashes, self.bits.len());
        proof {
            assert(hash_pair(s0, s1) == (h1, h2));
            assert(lists_probes(r@, hash_pair(s0, s1).0, hash_pair(s0, s1).1, self.probes() as int, self.bit_seq().len() as int));
        }
        r
    }

    /// Adds `value`: sets the bit of every probe of its two hashes and
    /// counts it.
    pub fn add<T: Hash>(&mut self, value: &T)
        requires
            old(self).wf(),
            old(self).added() < usize::MAX,
        ensures
            final(self).wf(),
            final(self).probes() == old(self).probes(),
            final(self).added() == old(self).added() + 1,
            exists|s0: Seq<Seq<u8>>, s1: Seq<Seq<u8>>|
                #[trigger] probes_set(old(self).bit_seq(), hash_pair(s0, s1).0, hash_pair(s0, s1).1, old(self).probes() as int)
                    == final(self).bit_seq(),
    {
        let idx = self.indexes(value);
        let ghost s = choose|s0: Seq<Seq<u8>>, s1: Seq<Seq<u8>>|
            #[trigger] lists_probes(idx@, hash_pair(s0, s1).0, hash_pair(s0, s1).1, self.probes() as int, self.bit_seq().len() as int);
        let ghost h1 = hash_pair(s.0, s.1).0;
        let ghost h2 = hash_pair(s.0, s.1).1;
        let ghost m = self.bits@.len() as int;
        let ghost k = self.hashes as int;
        let mut t: usize = 0;
        while t < idx.len()
            invariant
                self.wf(),
                h2 >= 1,
                self.hashes == old(self).hashes,
                self.inserted == old(self).inserted,
                m == self.bits@.len(),
                m == old(self).bits@.len(),
                k == self.hashes,
                idx@.len() == k,
                forall|i: int| 0 <= i < k ==> #[trigger] idx@[i] == probe(h1, h2, i, m),
                t <= k,
                forall|b: int|
                    0 <= b < m ==> #[trigger] self.bits@[b] == (old(self).bits@[b] || exists|i: int|
                        0 <= i < t && #[trigger] probe(h1, h2, i, m) == b),
            decreases k - t,
        {
            let b = idx[t];
            let ghost before = self.bits@;
            self.bits.set(b, true);
            proof {
                assert forall|c: int| 0 <= c < m implies #[trigger] self.bits@[c] == (old(self).bits@[c] || exists|i: int|
                    0 <= i < t + 1 && #[trigger] probe(h1, h2, i, m) == c) by {
                    if c == b {
                        assert(probe(h1, h2, t as int, m) == c);
                    } else {
                        assert(self.bits@[c] == before[c]);
                        if exists|i: int| 0 <= i < t + 1 && #[trigger] probe(h1, h2, i, m) == c {
                            let i = choose|i: int| 0 <= i < t + 1 && #[trigger] probe(h1, h2, i, m) == c;
                            assert(i != t);
                            assert(exists|i2: int| 0 <= i2 < t && #[trigger] probe(h1, h2, i2, m) == c);
                        }
                        if exists|i: int| 0 <= i < t && #[trigger] probe(h1, h2, i, m) == c {
                            let i = choose|i: int| 0 <= i < t && #[trigger] probe(h1, h2, i, m) == c;
                            assert(0 <= i < t + 1 && probe(h1, h2, i, m) == c);
                        }
                    }
                }
            }
            t = t + 1;
        }
        self.inserted = self.inserted + 1;
        proof {
            assert(probes_set(old(self).bit_seq(), h1, h2, k) =~= self.bit_seq());
            assert(probes_set(old(self).bit_seq(), hash_pair(s.0, s.1).0, hash_pair(s.0, s.1).1, k) == self.bit_seq());
        }
    }

    /// A value added is contained: `add` sets the probes of the pair that
    /// seeds 0 and 1 hash from the value's writes, and `contains` tests the
    /// probes of the pair hashed the same way, so where the value's `Hash`
    /// writes the same bytes in both calls (as it does for equal values),
    /// every probe hits, whatever else was added before.
    pub proof fn lemma_added_is_contained(before: &BloomFilter, after: &BloomFilter, s0: Seq<Seq<u8>>, s1: Seq<Seq<u8>>)
        requires
            before.wf(),
            after.probes() == before.probes(),
            after.bit_seq() == probes_set(before.bit_seq(), hash_pair(s0, s1).0, hash_pair(s0, s1).1, before.probes() as int),
        ensures
            probes_hit(after.bit_seq(), hash_pair(s0, s1).0, hash_pair(s0, s1).1, after.probes() as int),
    {
        lemma_set_then_hit(before.bit_seq(), hash_pair(s0, s1).0, hash_pair(s0, s1).1, before.probes() as int);
    }

    /// A value contained stays contained after any later `add`: adding only
    /// sets bits.
    pub proof fn lemma_contained_stays(before: &BloomFilter, after: &BloomFilter, s0: Seq<Seq<u8>>, s1: Seq<Seq<u8>>, t0: Seq<Seq<u8>>, t1: Seq<Seq<u8>>)
        requires
            after.probes() == before.probes(),
            probes_hit(before.bit_seq(), hash_pair(s0, s1).0, hash_pair(s0, s1).1, before.probes() as int),
            after.bit_seq() == probes_set(before.bit_seq(), hash_pair(t0, t1).0, hash_pair(t0, t1).1, before.probes() as int),
        ensures
            probes_hit(after.bit_seq(), hash_pair(s0, s1).0, hash_pair(s0, s1).1, after.probes() as int),
    {
        lemma_hit_kept(before.bit_seq(), hash_pair(s0, s1).0, hash_pair(s0, s1).1, before.probes() as int,
            hash_pair(t0, t1).0, hash_pair(t0, t1).1, before.probes() as int);
    }

    /// Whether every probe of the two hashes of `value` hits a set bit.
    pub fn contains<T: Hash>(&self, value: &T) -> (r: bool)
        requires
            self.wf(),
        ensures
            exists|s0: Seq<Seq<u8>>, s1: Seq<Seq<u8>>|
                r == #[trigger] probes_hit(self.bit_seq(), hash_pair(s0, s1).0, hash_pair(s0, s1).1, self.probes() as int),
    {
        let idx = self.indexes(value);
        let ghost s = choose|s0: Seq<Seq<u8>>, s1: Seq<Seq<u8>>|
            #[trigger] lists_probes(idx@, hash_pair(s0, s1).0, hash_pair(s0, s1).1, self.probes() as int, self.bit_seq().len() as int);
        let ghost h = hash_pair(s.0, s.1);
        let mut t: usize = 0;
        while t < idx.len()
            invariant
                self.wf(),
                h == hash_pair(s.0, s.1),
                h.1 >= 1,
                idx@.len() == self.probes(),
                forall|i: int| 0 <= i < self.probes() ==> #[trigger] idx@[i] == probe(h.0, h.1, i, self.bit_seq().len() as int),
                t <= idx@.len(),
                forall|i: int| 0 <= i < t ==> self.bits@[#[trigger] probe(h.0, h.1, i, self.bit_seq().len() as int)],
            decreases idx@.len() - t,
        {
            if !self.bits[idx[t]] {
                proof {
                    assert(!probes_hit(self.bit_seq(), h.0, h.1, self.probes() as int));
                    assert(!probes_hit(self.bit_seq(), hash_pair(s.0, s.1).0, hash_pair(s.0, s.1).1, self.probes() as int));
                }
                return false;
            }
            t = t + 1;
        }
        proof {
            assert(probes_hit(self.bit_seq(), h.0, h.1, self.probes() as int));
            assert(probes_hit(self.bit_seq(), hash_pair(s.0, s.1).0, hash_pair(s.0, s.1).1, self.probes() as int));
        }
        true
    }
}

} // verus!
