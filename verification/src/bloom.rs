//! A bloom filter over byte strings, stored as 64-bit words.

use vstd::prelude::*;

use crate::hashing::{fx_hash64, hash_bytes};

verus! {

/// Bit `b` (counted from the least significant bit) of the word `w`.
pub open spec fn word_bit(w: u64, b: int) -> bool {
    (w >> (b as u64)) & 1u64 == 1u64
}

/// The `k` probe positions of double hashing with hashes `h1`, `h2` in a filter of
/// `nb` bits: `(h1 + i * h2) mod 2^64 mod nb` for `i` in `0..k`.
pub open spec fn probe_positions(h1: u64, h2: u64, k: nat, nb: nat) -> Seq<int> {
    Seq::new(k, |i: int| ((h1 + i * h2) % 0x1_0000_0000_0000_0000int) % (nb as int))
}

/// The second hash of an item: the hash of the item followed by the byte `0xFF`.
pub open spec fn second_hash_input(item: Seq<u8>) -> Seq<u8> {
    item.push(0xFFu8)
}

/// The abstract state of a bloom filter: its words, its size in bits and its number
/// of hash functions.
pub struct BloomView {
    pub words: Seq<u64>,
    pub num_bits: nat,
    pub num_hashes: nat,
}

impl BloomView {
    /// The number of bits that the words hold.
    pub open spec fn width(self) -> nat {
        64 * self.words.len()
    }

    /// Whether bit `p` of the filter is set.
    pub open spec fn is_set(self, p: int) -> bool {
        0 <= p < self.width() && word_bit(self.words[p / 64], p % 64)
    }

    pub open spec fn well_formed(self) -> bool {
        &&& 1 <= self.num_bits
        &&& self.words.len() == (self.num_bits + 63) / 64
        &&& self.width() <= usize::MAX
        &&& self.num_hashes <= u32::MAX
    }

    /// The bit positions that `item` maps to.
    pub open spec fn positions(self, item: Seq<u8>) -> Seq<int> {
        probe_positions(
            fx_hash64(item),
            fx_hash64(second_hash_input(item)),
            self.num_hashes,
            self.num_bits,
        )
    }

    /// Whether every bit that `item` maps to is set.
    pub open spec fn contains(self, item: Seq<u8>) -> bool {
        forall|i: int| 0 <= i < self.positions(item).len() ==> self.is_set(#[trigger] self.positions(item)[i])
    }

    /// Same size and hash count as `other`.
    pub open spec fn same_shape(self, other: BloomView) -> bool {
        &&& self.num_bits == other.num_bits
        &&& self.num_hashes == other.num_hashes
        &&& self.words.len() == other.words.len()
    }

    /// The filter with the bits at the positions of `item` set.
    pub open spec fn inserted(self, item: Seq<u8>) -> BloomView {
        BloomView {
            words: Seq::new(self.words.len(), |w: int| self.words[w] | word_mask(w, self.positions(item))),
            num_bits: self.num_bits,
            num_hashes: self.num_hashes,
        }
    }

    /// The filter with each of its words ORed with the word of `other` at the same index,
    /// where `other` has one.
    pub open spec fn unioned(self, other: BloomView) -> BloomView {
        BloomView {
            words: Seq::new(
                self.words.len(),
                |w: int| if w < other.words.len() { self.words[w] | other.words[w] } else { self.words[w] },
            ),
            num_bits: self.num_bits,
            num_hashes: self.num_hashes,
        }
    }

    /// Number of set bits among the first `n` words.
    pub open spec fn ones_in_words(words: Seq<u64>, n: nat) -> nat
        decreases n,
    {
        if n == 0 {
            0
        } else {
            Self::ones_in_words(words, (n - 1) as nat) + ones_in_word(words[n - 1], 64)
        }
    }

    /// Number of set bits in the whole filter.
    pub open spec fn ones(self) -> nat {
        Self::ones_in_words(self.words, self.words.len())
    }
}

/// Number of set bits among the lowest `n` bits of `w`.
pub open spec fn ones_in_word(w: u64, n: nat) -> nat
    decreases n,
{
    if n == 0 {
        0
    } else {
        ones_in_word(w, (n - 1) as nat) + if word_bit(w, n - 1) { 1nat } else { 0nat }
    }
}

/// The bits of word `w` that the positions `ps` fall on.
pub open spec fn word_mask(w: int, ps: Seq<int>) -> u64
    decreases ps.len(),
{
    if ps.len() == 0 {
        0u64
    } else {
        word_mask(w, ps.drop_last()) | (if ps.last() / 64 == w { 1u64 << ((ps.last() % 64) as u64) } else { 0u64 })
    }
}

/// The smallest filter size in bits.
pub const MIN_BITS: usize = 64;

/// The range that the number of hash functions is clamped to.
pub const MIN_HASHES: u32 = 1;
pub const MAX_HASHES: u32 = 16;

/// The filter size for a requested size: at least `MIN_BITS`.
pub open spec fn clamped_num_bits(raw: nat) -> nat {
    if raw < MIN_BITS { MIN_BITS as nat } else { raw }
}

/// The number of hash functions for a requested number: within `MIN_HASHES..=MAX_HASHES`.
pub open spec fn clamped_num_hashes(raw: nat) -> nat {
    if raw < MIN_HASHES {
        MIN_HASHES as nat
    } else if raw > MAX_HASHES {
        MAX_HASHES as nat
    } else {
        raw
    }
}

pub struct BloomFilter {
    bits: Vec<u64>,
    num_bits: usize,
    num_hashes: u32,
}

impl View for BloomFilter {
    type V = BloomView;

    closed spec fn view(&self) -> BloomView {
        BloomView { words: self.bits@, num_bits: self.num_bits as nat, num_hashes: self.num_hashes as nat }
    }
}

proof fn lemma_or_bit(x: u64, y: u64, c: u64)
    requires
        c < 64,
    ensures
        word_bit(x | y, c as int) == (word_bit(x, c as int) || word_bit(y, c as int)),
{
    assert(((x | y) >> c) & 1u64 == 1u64 <==> (((x >> c) & 1u64 == 1u64) || ((y >> c) & 1u64 == 1u64)))
        by (bit_vector);
}

proof fn lemma_split_position(p: usize)
    ensures
        p >> 6usize == p / 64,
        p & 63usize == p % 64,
{
    assert(p >> 6usize == p / 64 && p & 63usize == p % 64) by (bit_vector);
}

impl BloomFilter {
    /// The filter size used for a requested size of `raw` bits: at least `MIN_BITS`.
    pub fn sized_num_bits(raw: usize) -> (r: usize)
        ensures
            r == clamped_num_bits(raw as nat),
    {
        if raw < MIN_BITS { MIN_BITS } else { raw }
    }

    /// An empty filter of `max(raw_bits, 64)` bits with `clamp(raw_hashes, 1, 16)` hash
    /// functions. The size in bits must leave room for rounding up to whole words.
    pub fn with_params(raw_bits: usize, raw_hashes: u32) -> (f: BloomFilter)
        requires
            raw_bits <= usize::MAX - 63,
        ensures
            f@.well_formed(),
            f@.num_bits == clamped_num_bits(raw_bits as nat),
            f@.num_hashes == clamped_num_hashes(raw_hashes as nat),
            forall|i: int| 0 <= i < f@.words.len() ==> f@.words[i] == 0u64,
            forall|p: int| !(#[trigger] f@.is_set(p)),
    {
        let num_bits = Self::sized_num_bits(raw_bits);
        let num_hashes = if raw_hashes < MIN_HASHES {
            MIN_HASHES
        } else if raw_hashes > MAX_HASHES {
            MAX_HASHES
        } else {
            raw_hashes
        };
        let words = num_bits / 64 + if num_bits % 64 == 0 { 0 } else { 1 };
        assert(words == (num_bits + 63) / 64);
        let bits = vec![0u64; words];
        let f = BloomFilter { bits, num_bits, num_hashes };
        proof {
            assert forall|p: int| !(#[trigger] f@.is_set(p)) by {
                if 0 <= p < f@.width() {
                    assert(f@.words[p / 64] == 0u64);
                    let c = (p % 64) as u64;
                    assert((0u64 >> c) & 1u64 == 0u64) by (bit_vector);
                }
            }
        }
        f
    }

    /// The bit positions that `item` maps to, in probe order.
    pub fn hash_positions(&self, item: &[u8]) -> (r: Vec<usize>)
        requires
            self@.well_formed(),
        ensures
            r@.len() == self@.positions(item@).len(),
            forall|i: int| 0 <= i < r@.len() ==> r@[i] as int == #[trigger] self@.positions(item@)[i],
    {
        let h1 = hash_bytes(item);
        let mut buf: Vec<u8> = Vec::with_capacity(item.len().saturating_add(1));
        let mut j: usize = 0;
        while j < item.len()
            invariant
                j <= item@.len(),
                buf@ == item@.subrange(0, j as int),
            decreases item@.len() - j,
        {
            buf.push(item[j]);
            j += 1;
        }
        buf.push(0xFFu8);
        assert(buf@ == second_hash_input(item@));
        let h2 = hash_bytes(buf.as_slice());
        let nb = self.num_bits as u64;
        let mut r: Vec<usize> = Vec::new();
        let mut i: u32 = 0;
        while i < self.num_hashes
            invariant
                i <= self.num_hashes,
                self@.well_formed(),
                nb == self.num_bits,
                h1 == fx_hash64(item@),
                h2 == fx_hash64(second_hash_input(item@)),
                r@.len() == i,
                forall|k: int| 0 <= k < i ==> r@[k] as int == #[trigger] self@.positions(item@)[k],
            decreases self.num_hashes - i,
        {
            let prod = (i as u64).wrapping_mul(h2);
            let sum = h1.wrapping_add(prod);
            let v = sum % nb;
            proof {
                let m = 0x1_0000_0000_0000_0000int;
                assert(prod as int == (i as int * h2 as int) % m);
                assert(sum as int == (h1 as int + prod as int) % m);
                vstd::arithmetic::div_mod::lemma_add_mod_noop_right(h1 as int, i as int * h2 as int, m);
                assert(self@.positions(item@)[i as int] == ((h1 + i * h2) % m) % (nb as int));
            }
            r.push(v as usize);
            i += 1;
        }
        r
    }

    /// Sets the bits at the given positions.
    fn set_positions(&mut self, positions: &Vec<usize>)
        requires
            old(self)@.well_formed(),
            forall|i: int| 0 <= i < positions@.len() ==> positions@[i] < old(self)@.num_bits,
        ensures
            final(self)@.num_bits == old(self)@.num_bits,
            final(self)@.num_hashes == old(self)@.num_hashes,
            final(self)@.words == Seq::new(
                old(self)@.words.len(),
                |w: int| old(self)@.words[w] | word_mask(w, positions@.map_values(|x: usize| x as int)),
            ),
    {
        let ghost start = self@;
        let ghost ps = positions@.map_values(|x: usize| x as int);
        proof {
            assert(ps.take(0).len() == 0);
            assert forall|ww: int| 0 <= ww < start.words.len() implies start.words[ww] | word_mask(ww, ps.take(0)) == start.words[ww] by {
                let x = start.words[ww];
                assert(x | 0u64 == x) by (bit_vector);
            }
            assert(self@.words =~= Seq::new(start.words.len(), |w: int| start.words[w] | word_mask(w, ps.take(0))));
        }
        let mut i: usize = 0;
        while i < positions.len()
            invariant
                i <= positions@.len(),
                ps == positions@.map_values(|x: usize| x as int),
                forall|k: int| 0 <= k < positions@.len() ==> positions@[k] < start.num_bits,
                self@.same_shape(start),
                self@.well_formed(),
                self@.words == Seq::new(start.words.len(), |w: int| start.words[w] | word_mask(w, ps.take(i as int))),
            decreases positions@.len() - i,
        {
            let pos = positions[i];
            proof { lemma_split_position(pos); }
            let w = pos >> 6;
            let b = pos & 63;
            let ghost before = self@;
            assert(pos < self@.width()) by {
                assert(pos < start.num_bits);
                assert(start.num_bits <= 64 * ((start.num_bits + 63) / 64));
            }
            let old_word = self.bits[w];
            let new_word = old_word | (1u64 << (b as u64));
            self.bits.set(w, new_word);
            proof {
                let t0 = ps.take(i as int);
                let t1 = ps.take(i + 1);
                assert(t1.drop_last() =~= t0);
                assert(t1.last() == pos as int);
                assert(self@.words =~= Seq::new(start.words.len(), |ww: int| start.words[ww] | word_mask(ww, t1))) by {
                    assert forall|ww: int| 0 <= ww < start.words.len() implies self@.words[ww] == start.words[ww] | word_mask(ww, t1) by {
                        let sw = start.words[ww];
                        let m0 = word_mask(ww, t0);
                        if ww == w as int {
                            let bb = b as u64;
                            assert(word_mask(ww, t1) == m0 | (1u64 << bb));
                            assert((sw | m0) | (1u64 << bb) == sw | (m0 | (1u64 << bb))) by (bit_vector);
                        } else {
                            assert(word_mask(ww, t1) == m0 | 0u64);
                            assert(m0 | 0u64 == m0) by (bit_vector);
                        }
                    }
                }
            }
            i += 1;
        }
        assert(ps.take(positions@.len() as int) =~= ps);
    }

    /// Sets every bit that `item` maps to.
    pub fn insert(&mut self, item: &[u8])
        requires
            old(self)@.well_formed(),
        ensures
            final(self)@ == old(self)@.inserted(item@),
    {
        let positions = self.hash_positions(item);
        assert forall|k: int| 0 <= k < positions@.len() implies positions@[k] < old(self)@.num_bits by {
            assert(positions@[k] as int == old(self)@.positions(item@)[k]);
        }
        self.set_positions(&positions);
        assert(positions@.map_values(|x: usize| x as int) =~= old(self)@.positions(item@));
        assert(self@.words =~= old(self)@.inserted(item@).words);
    }

    /// Whether every bit that `item` maps to is set.
    pub fn contains(&self, item: &[u8]) -> (r: bool)
        requires
            self@.well_formed(),
        ensures
            r == self@.contains(item@),
    {
        let positions = self.hash_positions(item);
        let mut i: usize = 0;
        while i < positions.len()
            invariant
                i <= positions@.len(),
                positions@.len() == self@.positions(item@).len(),
                forall|k: int| 0 <= k < positions@.len() ==> positions@[k] as int == #[trigger] self@.positions(item@)[k],
                forall|k: int| 0 <= k < i ==> self@.is_set(#[trigger] self@.positions(item@)[k]),
                self@.well_formed(),
            decreases positions@.len() - i,
        {
            let pos = positions[i];
            proof { lemma_split_position(pos); }
            assert(pos < self@.num_bits) by {
                assert(self@.positions(item@)[i as int] == pos as int);
            }
            let word = self.bits[pos >> 6];
            let bit = (word >> ((pos & 63) as u64)) & 1u64;
            if bit != 1u64 {
                assert(!self@.is_set(self@.positions(item@)[i as int]));
                return false;
            }
            assert(self@.is_set(self@.positions(item@)[i as int]));
            i += 1;
        }
        true
    }

    /// ORs the words of `other` into the words of `self`, word by word, over the words
    /// that both hold.
    pub fn union_with(&mut self, other: &BloomFilter)
        requires
            old(self)@.well_formed(),
            other@.well_formed(),
        ensures
            final(self)@ == old(self)@.unioned(other@),
    {
        let ghost start = self@;
        let n = if self.bits.len() < other.bits.len() { self.bits.len() } else { other.bits.len() };
        let mut w: usize = 0;
        while w < n
            invariant
                w <= n,
                n <= start.words.len(),
                n <= other@.words.len(),
                n == if start.words.len() < other@.words.len() { start.words.len() } else { other@.words.len() },
                self@.same_shape(start),
                self@.well_formed(),
                forall|k: int| 0 <= k < w ==> #[trigger] self@.words[k] == start.words[k] | other@.words[k],
                forall|k: int| w <= k < start.words.len() ==> #[trigger] self@.words[k] == start.words[k],
            decreases n - w,
        {
            let v = self.bits[w] | other.bits[w];
            self.bits.set(w, v);
            w += 1;
        }
        assert(self@.words =~= start.unioned(other@).words);
    }

    /// The number of set bits in the filter.
    pub fn count_ones(&self) -> (r: usize)
        requires
            self@.well_formed(),
        ensures
            r == self@.ones(),
    {
        let mut total: usize = 0;
        let mut w: usize = 0;
        while w < self.bits.len()
            invariant
                w <= self@.words.len(),
                self@.well_formed(),
                total == BloomView::ones_in_words(self@.words, w as nat),
                total <= 64 * w,
            decreases self@.words.len() - w,
        {
            let c = popcount(self.bits[w]);
            total = total + c as usize;
            w += 1;
        }
        total
    }

    /// The size of the filter in bits.
    pub fn num_bits(&self) -> (r: usize)
        ensures
            r == self@.num_bits,
    {
        self.num_bits
    }

    /// The number of hash functions.
    pub fn num_hashes(&self) -> (r: u32)
        ensures
            r == self@.num_hashes,
    {
        self.num_hashes
    }

    /// The words of the filter.
    pub fn words(&self) -> (r: &Vec<u64>)
        ensures
            r@ == self@.words,
    {
        &self.bits
    }
}

/// The number of set bits in `w`.
fn popcount(w: u64) -> (r: u32)
    ensures
        r == ones_in_word(w, 64),
        r <= 64,
{
    let mut count: u32 = 0;
    let mut b: u64 = 0;
    while b < 64
        invariant
            b <= 64,
            count == ones_in_word(w, b as nat),
            count <= b,
        decreases 64 - b,
    {
        let bit = (w >> b) & 1u64;
        if bit == 1u64 {
            count += 1;
        }
        b += 1;
    }
    count
}

proof fn lemma_word_mask_bit(a: u64, w: int, ps: Seq<int>, c: int)
    requires
        0 <= c < 64,
        forall|k: int| 0 <= k < ps.len() ==> 0 <= #[trigger] ps[k],
    ensures
        word_bit(a | word_mask(w, ps), c) == (word_bit(a, c) || exists|k: int|
            0 <= k < ps.len() && #[trigger] ps[k] / 64 == w && ps[k] % 64 == c),
    decreases ps.len(),
{
    let cc = c as u64;
    if ps.len() == 0 {
        assert(a | 0u64 == a) by (bit_vector);
    } else {
        let rest = ps.drop_last();
        let m = word_mask(w, rest);
        lemma_word_mask_bit(a, w, rest, c);
        let p = ps.last();
        let x = if p / 64 == w { 1u64 << ((p % 64) as u64) } else { 0u64 };
        assert(a | (m | x) == (a | m) | x) by (bit_vector);
        lemma_or_bit(a | m, x, cc);
        if p / 64 == w {
            let bb = (p % 64) as u64;
            assert(((1u64 << bb) >> cc) & 1u64 == 1u64 <==> bb == cc) by (bit_vector)
                requires
                    bb < 64,
                    cc < 64,
            ;
        } else {
            assert((0u64 >> cc) & 1u64 == 0u64) by (bit_vector);
        }
        if exists|k: int| 0 <= k < ps.len() && #[trigger] ps[k] / 64 == w && ps[k] % 64 == c {
            let k = choose|k: int| 0 <= k < ps.len() && #[trigger] ps[k] / 64 == w && ps[k] % 64 == c;
            if k < rest.len() {
                assert(rest[k] == ps[k]);
            }
        }
        if exists|k: int| 0 <= k < rest.len() && #[trigger] rest[k] / 64 == w && rest[k] % 64 == c {
            let k = choose|k: int| 0 <= k < rest.len() && #[trigger] rest[k] / 64 == w && rest[k] % 64 == c;
            assert(ps[k] == rest[k]);
        }
        if p / 64 == w && p % 64 == c {
            assert(ps[ps.len() - 1] == p);
        }
    }
}

/// Inserting an item sets exactly the bits at its positions and keeps every other bit.
pub proof fn lemma_inserted_is_set(v: BloomView, item: Seq<u8>, p: int)
    requires
        v.well_formed(),
    ensures
        v.inserted(item).well_formed(),
        v.inserted(item).same_shape(v),
        v.inserted(item).is_set(p) == (v.is_set(p) || v.positions(item).contains(p)),
{
    let ps = v.positions(item);
    let post = v.inserted(item);
    assert(v.num_bits <= v.width());
    assert forall|k: int| 0 <= k < ps.len() implies 0 <= #[trigger] ps[k] < v.num_bits by {
        let h1 = fx_hash64(item);
        let h2 = fx_hash64(second_hash_input(item));
        assert(ps[k] == ((h1 + k * h2) % 0x1_0000_0000_0000_0000int) % (v.num_bits as int));
    }
    if 0 <= p < v.width() {
        let w = p / 64;
        let c = p % 64;
        lemma_word_mask_bit(v.words[w], w, ps, c);
        assert(post.words[w] == v.words[w] | word_mask(w, ps));
        if ps.contains(p) {
            let k = choose|k: int| 0 <= k < ps.len() && ps[k] == p;
            assert(ps[k] / 64 == w && ps[k] % 64 == c);
        }
        if exists|k: int| 0 <= k < ps.len() && #[trigger] ps[k] / 64 == w && ps[k] % 64 == c {
            let k = choose|k: int| 0 <= k < ps.len() && #[trigger] ps[k] / 64 == w && ps[k] % 64 == c;
            assert(ps[k] == 64 * (ps[k] / 64) + ps[k] % 64);
            assert(p == 64 * w + c);
            assert(ps.contains(p));
        }
    } else {
        if ps.contains(p) {
            let k = choose|k: int| 0 <= k < ps.len() && ps[k] == p;
            assert(0 <= ps[k] < v.num_bits);
        }
    }
}

/// A union keeps every bit of the filter and adds the bits of `other` at positions that the
/// filter's words hold.
pub proof fn lemma_unioned_is_set(v: BloomView, other: BloomView, p: int)
    requires
        v.well_formed(),
    ensures
        v.unioned(other).well_formed(),
        v.unioned(other).same_shape(v),
        v.unioned(other).is_set(p) == (v.is_set(p) || (other.is_set(p) && p < v.width())),
{
    let post = v.unioned(other);
    if 0 <= p < v.width() {
        let c = (p % 64) as u64;
        let k = p / 64;
        if k < other.words.len() {
            lemma_or_bit(v.words[k], other.words[k], c);
        } else {
            assert(!(0 <= p < other.width()));
        }
    }
}

/// No false negatives: once an item is inserted, the filter reports it as present.
pub proof fn lemma_inserted_item_is_contained(v: BloomView, item: Seq<u8>)
    requires
        v.well_formed(),
    ensures
        v.inserted(item).contains(item),
{
    let post = v.inserted(item);
    assert forall|i: int| 0 <= i < post.positions(item).len() implies post.is_set(#[trigger] post.positions(item)[i]) by {
        lemma_inserted_is_set(v, item, post.positions(item)[i]);
        assert(v.positions(item) == post.positions(item));
        assert(v.positions(item).contains(post.positions(item)[i]));
    }
}

/// An insertion never clears a bit, so every item present before is present after.
pub proof fn lemma_insertion_keeps_contained(v: BloomView, item: Seq<u8>, other: Seq<u8>)
    requires
        v.well_formed(),
        v.contains(other),
    ensures
        v.inserted(item).contains(other),
{
    let post = v.inserted(item);
    assert forall|i: int| 0 <= i < post.positions(other).len() implies post.is_set(#[trigger] post.positions(other)[i]) by {
        lemma_inserted_is_set(v, item, post.positions(other)[i]);
        assert(v.positions(other) == post.positions(other));
        assert(v.is_set(v.positions(other)[i]));
    }
}

/// A union of two filters of one shape reports every item that either reported.
pub proof fn lemma_union_contains_both(v: BloomView, other: BloomView, item: Seq<u8>)
    requires
        v.well_formed(),
        other.well_formed(),
        other.same_shape(v),
        v.contains(item) || other.contains(item),
    ensures
        v.unioned(other).contains(item),
{
    let post = v.unioned(other);
    assert(v.positions(item) == post.positions(item));
    assert(other.positions(item) == post.positions(item));
    assert forall|i: int| 0 <= i < post.positions(item).len() implies post.is_set(#[trigger] post.positions(item)[i]) by {
        let p = post.positions(item)[i];
        lemma_unioned_is_set(v, other, p);
        if v.contains(item) {
            assert(v.is_set(v.positions(item)[i]));
        } else {
            assert(other.is_set(other.positions(item)[i]));
        }
    }
}

/// The number of positions `p` in `0..n` that satisfy `pred`.
pub open spec fn count_below(n: nat, pred: spec_fn(int) -> bool) -> nat
    decreases n,
{
    if n == 0 {
        0
    } else {
        count_below((n - 1) as nat, pred) + if pred(n - 1) { 1nat } else { 0nat }
    }
}

proof fn lemma_count_mono(n: nat, a: spec_fn(int) -> bool, b: spec_fn(int) -> bool)
    requires
        forall|p: int| 0 <= p < n && #[trigger] a(p) ==> b(p),
    ensures
        count_below(n, a) <= count_below(n, b),
    decreases n,
{
    if n > 0 {
        lemma_count_mono((n - 1) as nat, a, b);
    }
}

proof fn lemma_count_ext(n: nat, a: spec_fn(int) -> bool, b: spec_fn(int) -> bool)
    requires
        forall|p: int| 0 <= p < n ==> #[trigger] a(p) == b(p),
    ensures
        count_below(n, a) == count_below(n, b),
    decreases n,
{
    if n > 0 {
        lemma_count_ext((n - 1) as nat, a, b);
    }
}

proof fn lemma_count_union(n: nat, a: spec_fn(int) -> bool, b: spec_fn(int) -> bool, c: spec_fn(int) -> bool)
    requires
        forall|p: int| 0 <= p < n ==> #[trigger] c(p) == (a(p) || b(p)),
    ensures
        count_below(n, a) <= count_below(n, c),
        count_below(n, c) <= count_below(n, a) + count_below(n, b),
    decreases n,
{
    if n > 0 {
        lemma_count_union((n - 1) as nat, a, b, c);
    }
}

proof fn lemma_count_lower(n: nat, m: nat)
    requires
        m <= n,
    ensures
        count_below(n, |p: int| p < m) == m,
    decreases n,
{
    if n > m {
        lemma_count_lower((n - 1) as nat, m);
    } else if n > 0 {
        lemma_count_lower((n - 1) as nat, (m - 1) as nat);
        lemma_count_ext((n - 1) as nat, |p: int| p < m, |p: int| p < m - 1);
    }
}

proof fn lemma_count_single(n: nat, x: int)
    ensures
        count_below(n, |p: int| p == x) <= 1,
    decreases n,
{
    if n > 0 {
        lemma_count_single((n - 1) as nat, x);
        if n - 1 == x {
            lemma_count_ext((n - 1) as nat, |p: int| p == x, |p: int| false);
            lemma_count_false((n - 1) as nat);
        }
    }
}

proof fn lemma_count_false(n: nat)
    ensures
        count_below(n, |p: int| false) == 0,
    decreases n,
{
    if n > 0 {
        lemma_count_false((n - 1) as nat);
    }
}

/// At most `ps.len()` positions lie in `ps`.
proof fn lemma_count_in_seq(n: nat, ps: Seq<int>)
    ensures
        count_below(n, |p: int| ps.contains(p)) <= ps.len(),
    decreases ps.len(),
{
    if ps.len() == 0 {
        lemma_count_ext(n, |p: int| ps.contains(p), |p: int| false);
        lemma_count_false(n);
    } else {
        let r = ps.drop_last();
        let x = ps.last();
        lemma_count_in_seq(n, r);
        lemma_count_single(n, x);
        assert forall|p: int| 0 <= p < n implies #[trigger] ps.contains(p) == (r.contains(p) || p == x) by {
            if ps.contains(p) {
                let k = choose|k: int| 0 <= k < ps.len() && ps[k] == p;
                if k < r.len() {
                    assert(r[k] == p);
                }
            }
            if r.contains(p) {
                let k = choose|k: int| 0 <= k < r.len() && r[k] == p;
                assert(ps[k] == p);
            }
            if p == x {
                assert(ps[ps.len() - 1] == p);
            }
        }
        lemma_count_union(n, |p: int| r.contains(p), |p: int| p == x, |p: int| ps.contains(p));
    }
}

proof fn lemma_count_word(v: BloomView, n: nat, b: nat)
    requires
        n < v.words.len(),
        b <= 64,
        count_below(64 * n, |p: int| v.is_set(p)) == BloomView::ones_in_words(v.words, n),
    ensures
        count_below(64 * n + b, |p: int| v.is_set(p)) == BloomView::ones_in_words(v.words, n) + ones_in_word(v.words[n as int], b),
    decreases b,
{
    if b > 0 {
        lemma_count_word(v, n, (b - 1) as nat);
        let q = 64 * n + b - 1;
        assert(q / 64 == n);
        assert(q % 64 == b - 1);
    }
}

proof fn lemma_count_words(v: BloomView, n: nat)
    requires
        n <= v.words.len(),
    ensures
        count_below(64 * n, |p: int| v.is_set(p)) == BloomView::ones_in_words(v.words, n),
    decreases n,
{
    if n > 0 {
        lemma_count_words(v, (n - 1) as nat);
        lemma_count_word(v, (n - 1) as nat, 64);
        assert(64 * ((n - 1) as nat) + 64 == 64 * n);
    }
}

/// The number of set bits of a filter (what `count_ones` returns) is the number of its
/// positions that are set.
pub proof fn lemma_ones_counts_set_positions(v: BloomView)
    ensures
        v.ones() == count_below(v.width(), |p: int| v.is_set(p)),
{
    lemma_count_words(v, v.words.len());
}

/// An insertion never lowers the number of set bits, and raises it by at most the number
/// of hash functions.
pub proof fn lemma_insert_ones_bounds(v: BloomView, item: Seq<u8>)
    requires
        v.well_formed(),
    ensures
        v.ones() <= v.inserted(item).ones(),
        v.inserted(item).ones() <= v.ones() + v.num_hashes,
{
    let post = v.inserted(item);
    let ps = v.positions(item);
    lemma_ones_counts_set_positions(v);
    lemma_ones_counts_set_positions(post);
    assert forall|p: int| 0 <= p < v.width() implies #[trigger] post.is_set(p) == (v.is_set(p) || ps.contains(p)) by {
        lemma_inserted_is_set(v, item, p);
    }
    lemma_count_union(v.width(), |p: int| v.is_set(p), |p: int| ps.contains(p), |p: int| post.is_set(p));
    lemma_count_in_seq(v.width(), ps);
}

/// The filter after inserting each of `items` in order.
pub open spec fn inserted_all(v: BloomView, items: Seq<Seq<u8>>) -> BloomView
    decreases items.len(),
{
    if items.len() == 0 {
        v
    } else {
        inserted_all(v, items.drop_last()).inserted(items.last())
    }
}

/// Whether `p` is a position of one of `items` in the filter `v`.
pub open spec fn is_position_of_any(v: BloomView, items: Seq<Seq<u8>>, p: int) -> bool {
    exists|i: int| 0 <= i < items.len() && #[trigger] v.positions(items[i]).contains(p)
}

proof fn lemma_inserted_all_is_set(v: BloomView, items: Seq<Seq<u8>>, p: int)
    requires
        v.well_formed(),
        forall|q: int| !(#[trigger] v.is_set(q)),
    ensures
        inserted_all(v, items).well_formed(),
        inserted_all(v, items).same_shape(v),
        inserted_all(v, items).is_set(p) == is_position_of_any(v, items, p),
    decreases items.len(),
{
    if items.len() > 0 {
        let r = items.drop_last();
        let x = items.last();
        lemma_inserted_all_is_set(v, r, p);
        let mid = inserted_all(v, r);
        lemma_inserted_is_set(mid, x, p);
        assert(mid.positions(x) == v.positions(x));
        if is_position_of_any(v, items, p) {
            let i = choose|i: int| 0 <= i < items.len() && #[trigger] v.positions(items[i]).contains(p);
            if i < r.len() {
                assert(r[i] == items[i]);
                assert(is_position_of_any(v, r, p));
            }
        }
        if is_position_of_any(v, r, p) {
            let i = choose|i: int| 0 <= i < r.len() && #[trigger] v.positions(r[i]).contains(p);
            assert(items[i] == r[i]);
        }
        if v.positions(x).contains(p) {
            assert(items[items.len() - 1] == x);
        }
    }
}

proof fn lemma_count_any_bound(v: BloomView, items: Seq<Seq<u8>>)
    requires
        v.well_formed(),
    ensures
        count_below(v.width(), |p: int| is_position_of_any(v, items, p)) <= items.len() * v.num_hashes,
    decreases items.len(),
{
    let w = v.width();
    if items.len() == 0 {
        lemma_count_ext(w, |p: int| is_position_of_any(v, items, p), |p: int| false);
        lemma_count_false(w);
    } else {
        let r = items.drop_last();
        let x = items.last();
        lemma_count_any_bound(v, r);
        lemma_count_in_seq(w, v.positions(x));
        assert forall|p: int| 0 <= p < w implies #[trigger] is_position_of_any(v, items, p) == (is_position_of_any(v, r, p) || v.positions(x).contains(p)) by {
            if is_position_of_any(v, items, p) {
                let i = choose|i: int| 0 <= i < items.len() && #[trigger] v.positions(items[i]).contains(p);
                if i < r.len() {
                    assert(r[i] == items[i]);
                }
            }
            if is_position_of_any(v, r, p) {
                let i = choose|i: int| 0 <= i < r.len() && #[trigger] v.positions(r[i]).contains(p);
                assert(items[i] == r[i]);
            }
            if v.positions(x).contains(p) {
                assert(items[items.len() - 1] == x);
            }
        }
        lemma_count_union(w, |p: int| is_position_of_any(v, r, p), |p: int| v.positions(x).contains(p), |p: int| is_position_of_any(v, items, p));
        assert(r.len() * v.num_hashes + v.num_hashes == items.len() * v.num_hashes) by (nonlinear_arith)
            requires
                r.len() + 1 == items.len(),
        ;
    }
}

/// From an empty filter, after inserting `items`, the number of set bits is the number of
/// distinct positions of the items; so it is at most the size of the filter and at most
/// the number of items times the number of hash functions (0 for no items).
pub proof fn lemma_ones_after_inserts(v: BloomView, items: Seq<Seq<u8>>)
    requires
        v.well_formed(),
        forall|p: int| !(#[trigger] v.is_set(p)),
    ensures
        inserted_all(v, items).ones() == count_below(v.width(), |p: int| is_position_of_any(v, items, p)),
        inserted_all(v, items).ones() <= v.num_bits,
        inserted_all(v, items).ones() <= items.len() * v.num_hashes,
{
    let post = inserted_all(v, items);
    let w = v.width();
    lemma_inserted_all_is_set(v, items, 0);
    lemma_ones_counts_set_positions(post);
    assert forall|p: int| 0 <= p < w implies #[trigger] post.is_set(p) == is_position_of_any(v, items, p) by {
        lemma_inserted_all_is_set(v, items, p);
    }
    lemma_count_ext(w, |p: int| post.is_set(p), |p: int| is_position_of_any(v, items, p));
    assert forall|p: int| 0 <= p < w && #[trigger] is_position_of_any(v, items, p) implies p < v.num_bits by {
        let i = choose|i: int| 0 <= i < items.len() && #[trigger] v.positions(items[i]).contains(p);
        let ps = v.positions(items[i]);
        let k = choose|k: int| 0 <= k < ps.len() && ps[k] == p;
        let h1 = fx_hash64(items[i]);
        let h2 = fx_hash64(second_hash_input(items[i]));
        assert(ps[k] == ((h1 + k * h2) % 0x1_0000_0000_0000_0000int) % (v.num_bits as int));
    }
    lemma_count_mono(w, |p: int| is_position_of_any(v, items, p), |p: int| p < v.num_bits);
    assert(v.num_bits <= w);
    lemma_count_lower(w, v.num_bits);
    lemma_count_any_bound(v, items);
}

/// The `i`-th probe of `item` in a filter of `nb` bits: `(h1 + i * h2) mod 2^64 mod nb`,
/// where `h1` hashes the item and `h2` hashes the item followed by the byte `0xFF`.
pub open spec fn probe_of(item: Seq<u8>, i: int, nb: nat) -> int {
    ((fx_hash64(item) + i * fx_hash64(item.push(0xFFu8))) % 0x1_0000_0000_0000_0000int) % (nb as int)
}

/// An item maps to exactly `num_hashes` probes, the `i`-th being `probe_of(item, i)`; the
/// filter reports an item exactly when all of its probe bits are set, so an item with a
/// clear probe bit is not reported.
pub proof fn lemma_contains_all_probes(v: BloomView, item: Seq<u8>)
    ensures
        v.positions(item).len() == v.num_hashes,
        forall|i: int| 0 <= i < v.num_hashes ==> #[trigger] v.positions(item)[i] == probe_of(item, i, v.num_bits),
        v.contains(item) <==> (forall|i: int| 0 <= i < v.num_hashes ==> v.is_set(#[trigger] probe_of(item, i, v.num_bits))),
        forall|k: int| 0 <= k < v.num_hashes && !v.is_set(#[trigger] probe_of(item, k, v.num_bits)) ==> !v.contains(item),
{
    assert forall|i: int| 0 <= i < v.num_hashes implies #[trigger] v.positions(item)[i] == probe_of(item, i, v.num_bits) by {
    }
    if v.contains(item) {
        assert forall|i: int| 0 <= i < v.num_hashes implies v.is_set(#[trigger] probe_of(item, i, v.num_bits)) by {
            assert(v.positions(item)[i] == probe_of(item, i, v.num_bits));
        }
    }
    if forall|i: int| 0 <= i < v.num_hashes ==> v.is_set(#[trigger] probe_of(item, i, v.num_bits)) {
        assert forall|i: int| 0 <= i < v.positions(item).len() implies v.is_set(#[trigger] v.positions(item)[i]) by {
            assert(v.positions(item)[i] == probe_of(item, i, v.num_bits));
        }
    }
}

} // verus!
