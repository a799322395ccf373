//! Fixed bitmap container: one bit for each of the 65,536 positions of a
//! block, in 1024 words of 64 bits, with the number of set bits kept beside.

use vstd::prelude::*;
use crate::array::{
    ArrayContainer, strictly_increasing, sym_diff, lemma_u16_set_finite, lemma_gap_not_member,
    lemma_take_push_set, lemma_push_increasing,
};

verus! {

/// Whether bit `b` of the word `w` is set.
pub open spec fn word_has(w: u64, b: u64) -> bool {
    w & (1u64 << b) != 0
}

/// Number of set bits among the lowest `n` bits of `w`.
pub open spec fn word_count(w: u64, n: nat) -> nat
    decreases n,
{
    if n == 0 {
        0
    } else {
        word_count(w, (n - 1) as nat) + if word_has(w, (n - 1) as u64) {
            1nat
        } else {
            0nat
        }
    }
}

/// Number of set bits of a 64-bit word.
pub open spec fn popcount(w: u64) -> nat {
    word_count(w, 64)
}

/// Number of set bits in the first `n` words.
pub open spec fn total_count(bits: Seq<u64>, n: nat) -> nat
    decreases n,
{
    if n == 0 {
        0
    } else {
        total_count(bits, (n - 1) as nat) + popcount(bits[n - 1])
    }
}

/// Whether the bit that stands for `v` is set: bit `v % 64` of word `v / 64`.
pub open spec fn bits_has(bits: Seq<u64>, v: u16) -> bool {
    word_has(bits[v as int / 64], (v % 64) as u64)
}

/// The set bits below position `m`, as a set of values.
pub open spec fn set_below(bits: Seq<u64>, m: nat) -> Set<u16> {
    Set::new(|v: u16| v < m && bits_has(bits, v))
}

/// Number of set bits below position `m`, counted word by word.
pub open spec fn count_below(bits: Seq<u64>, m: nat) -> nat {
    total_count(bits, m / 64) + word_count(bits[m as int / 64], m % 64)
}

/// `u64::count_ones` of std: the number of ones in the binary representation
/// of the word, here the count of the positions below 64 whose bit is set.
pub assume_specification[ u64::count_ones ](w: u64) -> (n: u32)
    ensures
        n == popcount(w),
;

/// Among the lowest `n` bits at most `n` are set.
pub proof fn lemma_word_count_bound(w: u64, n: nat)
    ensures
        word_count(w, n) <= n,
    decreases n,
{
    if n > 0 {
        lemma_word_count_bound(w, (n - 1) as nat);
    }
}

/// The zero word has no bit set.
proof fn lemma_zero_word(b: u64)
    requires
        b < 64,
    ensures
        !word_has(0, b),
{
    assert(0u64 & (1u64 << b) == 0) by (bit_vector);
}

/// Or-ing a single bit into a word sets that bit and no other.
proof fn lemma_or_bit(w: u64, bit: u64, b: u64)
    requires
        bit < 64,
        b < 64,
    ensures
        word_has(w | (1u64 << bit), b) == (word_has(w, b) || b == bit),
{
    assert((w | (1u64 << bit)) & (1u64 << b) != 0 <==> (w & (1u64 << b) != 0 || b == bit))
        by (bit_vector)
        requires
            bit < 64,
            b < 64,
    ;
}

/// Masking a single bit out of a word clears that bit and no other.
proof fn lemma_clear_bit(w: u64, bit: u64, b: u64)
    requires
        bit < 64,
        b < 64,
    ensures
        word_has(w & !(1u64 << bit), b) == (word_has(w, b) && b != bit),
{
    assert((w & !(1u64 << bit)) & (1u64 << b) != 0 <==> (w & (1u64 << b) != 0 && b != bit))
        by (bit_vector)
        requires
            bit < 64,
            b < 64,
    ;
}

/// The bits of the or, the and, the and-not and the xor of two words are
/// those of the two words combined bit by bit.
proof fn lemma_word_ops(x: u64, y: u64, b: u64)
    requires
        b < 64,
    ensures
        word_has(x | y, b) == (word_has(x, b) || word_has(y, b)),
        word_has(x & y, b) == (word_has(x, b) && word_has(y, b)),
        word_has(x & !y, b) == (word_has(x, b) && !word_has(y, b)),
        word_has(x ^ y, b) == (word_has(x, b) != word_has(y, b)),
{
    assert((x | y) & (1u64 << b) != 0 <==> (x & (1u64 << b) != 0 || y & (1u64 << b) != 0))
        by (bit_vector);
    assert((x & y) & (1u64 << b) != 0 <==> (x & (1u64 << b) != 0 && y & (1u64 << b) != 0))
        by (bit_vector)
        requires
            b < 64,
    ;
    assert((x & !y) & (1u64 << b) != 0 <==> (x & (1u64 << b) != 0 && !(y & (1u64 << b) != 0)))
        by (bit_vector)
        requires
            b < 64,
    ;
    assert((x ^ y) & (1u64 << b) != 0 <==> ((x & (1u64 << b) != 0) != (y & (1u64 << b) != 0)))
        by (bit_vector)
        requires
            b < 64,
    ;
}

/// The set bits below a position are as many as the word-by-word count says.
pub proof fn lemma_count_below(bits: Seq<u64>, m: nat)
    requires
        m <= 65536,
    ensures
        set_below(bits, m).finite(),
        set_below(bits, m).len() == count_below(bits, m),
    decreases m,
{
    lemma_u16_set_finite(set_below(bits, m));
    if m == 0 {
        assert(set_below(bits, 0) =~= Set::<u16>::empty());
        assert(total_count(bits, 0) == 0);
        assert(word_count(bits[0], 0) == 0);
    } else {
        let p = (m - 1) as nat;
        lemma_count_below(bits, p);
        let v = p as u16;
        if bits_has(bits, v) {
            assert(set_below(bits, m) =~= set_below(bits, p).insert(v));
        } else {
            assert(set_below(bits, m) =~= set_below(bits, p));
        }
        let i = p / 64;
        let k = p % 64;
        assert(word_count(bits[i as int], k + 1) == word_count(bits[i as int], k) + if word_has(
            bits[i as int],
            k as u64,
        ) {
            1nat
        } else {
            0nat
        });
        if k == 63 {
            assert(m / 64 == i + 1);
            assert(m % 64 == 0);
            assert(total_count(bits, i + 1) == total_count(bits, i) + popcount(bits[i as int]));
            assert(word_count(bits[m as int / 64], 0) == 0);
        } else {
            assert(m / 64 == i);
            assert(m % 64 == k + 1);
        }
    }
}

/// Bitmap container: the values of one block as 65,536 bits.
pub struct BitmapContainer {
    /// The bits, 64 to a word: bit `b` of word `i` stands for `64 * i + b`.
    pub bits: Box<[u64; 1024]>,
    /// Number of set bits.
    pub cardinality: u64,
}

impl View for BitmapContainer {
    type V = Set<u16>;

    open spec fn view(&self) -> Set<u16> {
        Set::new(|v: u16| bits_has(self.bits@, v))
    }
}

/// The set of all bits equals the set of the bits below 65,536, so its size
/// is the sum of the words' bit counts.
pub proof fn lemma_view_count(c: &BitmapContainer)
    ensures
        c@.finite(),
        c@.len() == total_count(c.bits@, 1024),
        c@.len() <= 65536,
{
    lemma_count_below(c.bits@, 65536);
    assert(c@ =~= set_below(c.bits@, 65536));
    assert(word_count(c.bits@[1024], 0) == 0);
    lemma_total_count_bound(c.bits@, 1024);
}

/// The first `n` words hold at most 64 set bits each.
pub proof fn lemma_total_count_bound(bits: Seq<u64>, n: nat)
    ensures
        total_count(bits, n) <= 64 * n,
    decreases n,
{
    if n > 0 {
        lemma_total_count_bound(bits, (n - 1) as nat);
        lemma_word_count_bound(bits[n - 1], 64);
    }
}

impl Clone for BitmapContainer {
    fn clone(&self) -> (copy: Self)
        ensures
            copy.bits@ == self.bits@,
            copy.cardinality == self.cardinality,
    {
        let mut copy = BitmapContainer::new();
        let mut i: usize = 0;
        while i < 1024
            invariant
                i <= 1024,
                forall|k: int| 0 <= k < i ==> copy.bits@[k] == self.bits@[k],
            decreases 1024 - i,
        {
            copy.bits[i] = self.bits[i];
            i += 1;
        }
        copy.cardinality = self.cardinality;
        assert(copy.bits@ =~= self.bits@);
        copy
    }
}

impl BitmapContainer {
    /// The cached cardinality is the number of set bits.
    pub open spec fn wf(&self) -> bool {
        self.cardinality == self@.len()
    }

    /// An empty bitmap: every word zero.
    pub fn new() -> (result: Self)
        ensures
            result.wf(),
            result@ == Set::<u16>::empty(),
            forall|i: int| 0 <= i < 1024 ==> result.bits@[i] == 0,
    {
        let result = BitmapContainer { bits: Box::new([0u64; 1024]), cardinality: 0 };
        proof {
            assert forall|v: u16| !result@.contains(v) by {
                lemma_zero_word((v % 64) as u64);
            }
            assert(result@ =~= Set::<u16>::empty());
        }
        result
    }

    /// Word index and bit index of a value.
    pub fn position(value: u16) -> (r: (usize, usize))
        ensures
            r.0 == value as int / 64,
            r.1 == value % 64,
            r.0 < 1024,
            r.1 < 64,
    {
        let index: usize = (value as usize) / 64;
        let bit: usize = (value as usize) % 64;
        (index, bit)
    }

    /// Sets the bit of a value known to be absent.
    pub fn insert_unchecked(&mut self, value: u16)
        requires
            old(self).wf(),
            !old(self)@.contains(value),
        ensures
            final(self).wf(),
            final(self)@ == old(self)@.insert(value),
    {
        let (index, bit) = Self::position(value);
        proof {
            lemma_view_count(self);
            self.lemma_set_bit(value);
        }
        self.bits[index] |= 1u64 << bit;
        self.cardinality += 1;
    }

    /// Setting the bit of `value` in its word adds `value` to the set.
    proof fn lemma_set_bit(&self, value: u16)
        ensures
            Set::new(
                |v: u16|
                    bits_has(
                        self.bits@.update(
                            value as int / 64,
                            self.bits@[value as int / 64] | (1u64 << ((value % 64) as u64)),
                        ),
                        v,
                    ),
            ) == self@.insert(value),
    {
        let idx = value as int / 64;
        let bit = (value % 64) as u64;
        let w = self.bits@[idx];
        let after = self.bits@.update(idx, w | (1u64 << bit));
        assert forall|v: u16| bits_has(after, v) <==> self@.insert(value).contains(v) by {
            if v as int / 64 == idx {
                lemma_or_bit(w, bit, (v % 64) as u64);
            }
        }
        assert(Set::new(|v: u16| bits_has(after, v)) =~= self@.insert(value));
    }

    /// Clearing the bit of `value` in its word removes `value` from the set.
    proof fn lemma_unset_bit(&self, value: u16)
        ensures
            Set::new(
                |v: u16|
                    bits_has(
                        self.bits@.update(
                            value as int / 64,
                            self.bits@[value as int / 64] & !(1u64 << ((value % 64) as u64)),
                        ),
                        v,
                    ),
            ) == self@.remove(value),
    {
        let idx = value as int / 64;
        let bit = (value % 64) as u64;
        let w = self.bits@[idx];
        let after = self.bits@.update(idx, w & !(1u64 << bit));
        assert forall|v: u16| bits_has(after, v) <==> self@.remove(value).contains(v) by {
            if v as int / 64 == idx {
                lemma_clear_bit(w, bit, (v % 64) as u64);
            }
        }
        assert(Set::new(|v: u16| bits_has(after, v)) =~= self@.remove(value));
    }

    /// Sets the bit of a value; `true` if it was clear.
    pub fn insert(&mut self, value: u16) -> (added: bool)
        requires
            old(self).wf(),
        ensures
            final(self).wf(),
            final(self)@ == old(self)@.insert(value),
            added == !old(self)@.contains(value),
    {
        let (index, bit) = Self::position(value);
        let mask: u64 = 1u64 << bit;
        let was_set = (self.bits[index] & mask) != 0;
        if !was_set {
            proof {
                lemma_view_count(self);
                self.lemma_set_bit(value);
            }
            self.bits[index] |= mask;
            self.cardinality += 1;
            true
        } else {
            assert(self@ =~= self@.insert(value));
            false
        }
    }

    /// Bit test.
    pub fn contains(&self, value: u16) -> (found: bool)
        ensures
            found == self@.contains(value),
    {
        let (index, bit) = Self::position(value);
        let mask: u64 = 1u64 << bit;
        (self.bits[index] & mask) != 0
    }

    /// Clears the bit of a value; `true` if it was set.
    pub fn remove(&mut self, value: u16) -> (removed: bool)
        requires
            old(self).wf(),
        ensures
            final(self).wf(),
            final(self)@ == old(self)@.remove(value),
            removed == old(self)@.contains(value),
    {
        let (index, bit) = Self::position(value);
        let mask: u64 = 1u64 << bit;
        let was_set = (self.bits[index] & mask) != 0;
        if was_set {
            proof {
                lemma_view_count(self);
                self.lemma_unset_bit(value);
            }
            self.bits[index] &= !mask;
            self.cardinality -= 1;
            true
        } else {
            assert(self@ =~= self@.remove(value));
            false
        }
    }

    /// Number of set bits.
    pub fn len(&self) -> (n: u64)
        requires
            self.wf(),
        ensures
            n == self@.len(),
            n <= 65536,
    {
        proof {
            lemma_view_count(self);
        }
        self.cardinality
    }

    /// Whether no bit is set.
    pub fn is_empty(&self) -> (empty: bool)
        requires
            self.wf(),
        ensures
            empty == (self@ == Set::<u16>::empty()),
    {
        proof {
            lemma_view_count(self);
            if self@.len() == 0 {
                self@.lemma_len0_is_empty();
                assert(self@ =~= Set::<u16>::empty());
            }
        }
        self.cardinality == 0
    }

    /// Bytes on the heap: the 1024 words.
    pub fn heap_memory(&self) -> (bytes: usize)
        ensures
            bytes == 8192,
    {
        broadcast use vstd::layout::layout_of_primitives;

        1024 * core::mem::size_of::<u64>()
    }
}


impl BitmapContainer {
    /// Builds the bitmap of a sorted array's values.
    pub fn from_array(array: &ArrayContainer) -> (result: Self)
        requires
            array.wf(),
        ensures
            result.wf(),
            result@ == array@,
    {
        let mut bitmap = Self::new();
        let mut i: usize = 0;
        assert(array.values@.take(0).to_set() =~= Set::<u16>::empty());
        while i < array.values.len()
            invariant
                i <= array.values@.len(),
                array.wf(),
                bitmap.wf(),
                bitmap@ == array.values@.take(i as int).to_set(),
            decreases array.values@.len() - i,
        {
            let value: u16 = array.values[i];
            proof {
                lemma_gap_not_member(array.values@.take(i as int), i as int, value);
                lemma_take_push_set(array.values@, i as int);
            }
            bitmap.insert_unchecked(value);
            i += 1;
        }
        assert(array.values@.take(i as int) =~= array.values@);
        bitmap
    }

    /// Extracts the set bits, in increasing order, into a sorted array.
    pub fn to_array(&self) -> (result: ArrayContainer)
        requires
            self.wf(),
        ensures
            result.wf(),
            result@ == self@,
    {
        proof {
            lemma_view_count(self);
        }
        let mut values: Vec<u16> = Vec::with_capacity(self.cardinality as usize);
        let mut index: usize = 0;
        assert(values@.to_set() =~= set_below(self.bits@, 0));
        while index < 1024
            invariant
                index <= 1024,
                strictly_increasing(values@),
                forall|k: int| 0 <= k < values@.len() ==> values@[k] < 64 * index,
                values@.to_set() == set_below(self.bits@, (64 * index) as nat),
            decreases 1024 - index,
        {
            let word: u64 = self.bits[index];
            if word != 0 {
                let base: u16 = (index * 64) as u16;
                let mut bit: usize = 0;
                while bit < 64
                    invariant
                        index < 1024,
                        bit <= 64,
                        base == index * 64,
                        word == self.bits@[index as int],
                        strictly_increasing(values@),
                        forall|k: int| 0 <= k < values@.len() ==> values@[k] < 64 * index + bit,
                        values@.to_set() == set_below(self.bits@, (64 * index + bit) as nat),
                    decreases 64 - bit,
                {
                    let ghost m = (64 * index + bit) as nat;
                    let ghost v = m as u16;
                    if (word & (1u64 << bit)) != 0 {
                        proof {
                            lemma_push_increasing(values@, v);
                            assert(bits_has(self.bits@, v));
                            assert(set_below(self.bits@, m + 1) =~= set_below(self.bits@, m).insert(
                                v,
                            ));
                        }
                        values.push(base + bit as u16);
                    } else {
                        proof {
                            assert(!bits_has(self.bits@, v));
                            assert(set_below(self.bits@, m + 1) =~= set_below(self.bits@, m));
                        }
                    }
                    bit += 1;
                }
            } else {
                proof {
                    let lo = (64 * index) as nat;
                    assert forall|v: u16| set_below(self.bits@, lo + 64).contains(v) implies set_below(
                        self.bits@,
                        lo,
                    ).contains(v) by {
                        if v >= lo {
                            lemma_zero_word((v % 64) as u64);
                        }
                    }
                    assert(set_below(self.bits@, lo + 64) =~= set_below(self.bits@, lo));
                }
            }
            index += 1;
        }
        assert(set_below(self.bits@, 65536) =~= self@);
        ArrayContainer { values }
    }

    /// Recomputes the cardinality from the words by counting their bits.
    fn recount(&mut self)
        ensures
            final(self).bits@ == old(self).bits@,
            final(self).wf(),
    {
        let mut total: u64 = 0;
        let mut i: usize = 0;
        while i < 1024
            invariant
                i <= 1024,
                total == total_count(self.bits@, i as nat),
                total <= 64 * i,
            decreases 1024 - i,
        {
            proof {
                lemma_word_count_bound(self.bits@[i as int], 64);
            }
            total += self.bits[i].count_ones() as u64;
            i += 1;
        }
        self.cardinality = total;
        proof {
            lemma_view_count(self);
        }
    }

    /// Union: the words of both, or-ed one by one.
    pub fn union(&self, other: &BitmapContainer) -> (result: BitmapContainer)
        ensures
            result.wf(),
            result@ == self@.union(other@),
    {
        let mut result = Self::new();
        let mut i: usize = 0;
        while i < 1024
            invariant
                i <= 1024,
                forall|k: int| 0 <= k < i ==> result.bits@[k] == self.bits@[k] | other.bits@[k],
            decreases 1024 - i,
        {
            result.bits[i] = self.bits[i] | other.bits[i];
            i += 1;
        }
        result.recount();
        proof {
            assert forall|v: u16| result@.contains(v) <==> self@.union(other@).contains(v) by {
                lemma_word_ops(
                    self.bits@[v as int / 64],
                    other.bits@[v as int / 64],
                    (v % 64) as u64,
                );
            }
            assert(result@ =~= self@.union(other@));
        }
        result
    }

    /// Intersection: the words of both, and-ed one by one; `None` when no
    /// bit is left.
    pub fn intersection(&self, other: &BitmapContainer) -> (result: Option<BitmapContainer>)
        ensures
            result is None <==> self@.intersect(other@) == Set::<u16>::empty(),
            result matches Some(c) ==> c.wf() && c@ == self@.intersect(other@),
    {
        let mut result = Self::new();
        let mut i: usize = 0;
        while i < 1024
            invariant
                i <= 1024,
                forall|k: int| 0 <= k < i ==> result.bits@[k] == self.bits@[k] & other.bits@[k],
            decreases 1024 - i,
        {
            result.bits[i] = self.bits[i] & other.bits[i];
            i += 1;
        }
        result.recount();
        proof {
            assert forall|v: u16| result@.contains(v) <==> self@.intersect(other@).contains(v) by {
                lemma_word_ops(
                    self.bits@[v as int / 64],
                    other.bits@[v as int / 64],
                    (v % 64) as u64,
                );
            }
            assert(result@ =~= self@.intersect(other@));
        }
        if result.is_empty() {
            None
        } else {
            Some(result)
        }
    }

    /// Difference: each word of `self` without the bits of `other`'s; `None`
    /// when no bit is left.
    pub fn difference(&self, other: &BitmapContainer) -> (result: Option<BitmapContainer>)
        ensures
            result is None <==> self@.difference(other@) == Set::<u16>::empty(),
            result matches Some(c) ==> c.wf() && c@ == self@.difference(other@),
    {
        let mut result = Self::new();
        let mut i: usize = 0;
        while i < 1024
            invariant
                i <= 1024,
                forall|k: int| 0 <= k < i ==> result.bits@[k] == self.bits@[k] & !other.bits@[k],
            decreases 1024 - i,
        {
            result.bits[i] = self.bits[i] & !other.bits[i];
            i += 1;
        }
        result.recount();
        proof {
            assert forall|v: u16| result@.contains(v) <==> self@.difference(other@).contains(v) by {
                lemma_word_ops(
                    self.bits@[v as int / 64],
                    other.bits@[v as int / 64],
                    (v % 64) as u64,
                );
            }
            assert(result@ =~= self@.difference(other@));
        }
        if result.is_empty() {
            None
        } else {
            Some(result)
        }
    }

    /// Symmetric difference: the words of both, xor-ed one by one; `None`
    /// when no bit is left.
    pub fn symmetric_difference(&self, other: &BitmapContainer) -> (result: Option<
        BitmapContainer,
    >)
        ensures
            result is None <==> sym_diff(self@, other@) == Set::<u16>::empty(),
            result matches Some(c) ==> c.wf() && c@ == sym_diff(self@, other@),
    {
        let mut result = Self::new();
        let mut i: usize = 0;
        while i < 1024
            invariant
                i <= 1024,
                forall|k: int| 0 <= k < i ==> result.bits@[k] == self.bits@[k] ^ other.bits@[k],
            decreases 1024 - i,
        {
            result.bits[i] = self.bits[i] ^ other.bits[i];
            i += 1;
        }
        result.recount();
        proof {
            assert forall|v: u16| result@.contains(v) <==> sym_diff(self@, other@).contains(v) by {
                lemma_word_ops(
                    self.bits@[v as int / 64],
                    other.bits@[v as int / 64],
                    (v % 64) as u64,
                );
            }
            assert(result@ =~= sym_diff(self@, other@));
        }
        if result.is_empty() {
            None
        } else {
            Some(result)
        }
    }
}

} // verus!
