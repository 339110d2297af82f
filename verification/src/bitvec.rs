//! Compact bitsets used by liveness and stack-map analysis.
use vstd::prelude::*;
use crate::cfg::marked_positions;
use crate::gc::count_true;

verus! {

/// Bits packed 64 to a word; only positions below `len` are members.
#[derive(Clone, Debug, Default)]
pub struct BitSet {
    words: Vec<u64>,
    len: usize,
}

/// Mathematical content of a bitset: every bit of its words, and its length.
pub struct BitSetModel {
    pub bits: Seq<bool>,
    pub len: nat,
}

impl BitSetModel {
    /// Whether position `i` is a member: below the length and set.
    pub open spec fn has(self, i: int) -> bool {
        0 <= i < self.len && i < self.bits.len() && self.bits[i]
    }

    /// Membership of each position below the length.
    pub open spec fn members(self) -> Seq<bool> {
        Seq::new(self.len, |i: int| self.has(i))
    }
}

/// Bit `j` of `w`.
pub open spec fn word_bit(w: u64, j: u64) -> bool {
    (w >> j) & 1u64 == 1u64
}

/// The 64 bits of a word, lowest first.
pub open spec fn word_bits(w: u64) -> Seq<bool> {
    Seq::new(64, |j: int| word_bit(w, j as u64))
}

/// The bits of the words, word by word, lowest bit first.
pub open spec fn all_bits(words: Seq<u64>) -> Seq<bool>
    decreases words.len(),
{
    if words.len() == 0 {
        Seq::empty()
    } else {
        all_bits(words.drop_last()) + word_bits(words.last())
    }
}

/// `a` with each bit also set where `b` has it (positions past `b` unchanged).
pub open spec fn or_into(a: Seq<bool>, b: Seq<bool>) -> Seq<bool> {
    Seq::new(a.len(), |i: int| a[i] || (i < b.len() && b[i]))
}

/// `a` with each bit kept only where `b` has it (positions past `b` unchanged).
pub open spec fn and_into(a: Seq<bool>, b: Seq<bool>) -> Seq<bool> {
    Seq::new(a.len(), |i: int| if i < b.len() { a[i] && b[i] } else { a[i] })
}

/// Union per member: when `other` sets no bit at or past its own length or the length
/// of `a`, the union of `other` into `a` (as `union_with` computes it) has exactly the
/// members of either set below `a`'s length, and it differs from `a` exactly when it
/// gained a member.
pub proof fn law_union_per_member(a: BitSetModel, other: BitSetModel)
    requires
        a.len <= a.bits.len(),
        forall|i: int| 0 <= i < other.bits.len() && #[trigger] other.bits[i] ==> i < other.len && i < a.len,
    ensures
        forall|i: int| 0 <= i < a.len ==>
            (#[trigger] (BitSetModel { bits: or_into(a.bits, other.bits), len: a.len }).has(i)) == (a.has(i) || other.has(i)),
        (or_into(a.bits, other.bits) != a.bits) == exists|i: int| 0 <= i < a.len
            && (#[trigger] (BitSetModel { bits: or_into(a.bits, other.bits), len: a.len }).has(i)) && !a.has(i),
{
    let u = BitSetModel { bits: or_into(a.bits, other.bits), len: a.len };
    if or_into(a.bits, other.bits) != a.bits {
        if !(exists|i: int| 0 <= i < a.len && #[trigger] u.has(i) && !a.has(i)) {
            assert(or_into(a.bits, other.bits) =~= a.bits) by {
                assert forall|k: int| 0 <= k < a.bits.len() implies #[trigger] or_into(a.bits, other.bits)[k] == a.bits[k] by {
                    if k < other.bits.len() && other.bits[k] && !a.bits[k] {
                        assert(u.has(k));
                    }
                }
            }
        }
    }
    if exists|i: int| 0 <= i < a.len && #[trigger] u.has(i) && !a.has(i) {
        let i = choose|i: int| 0 <= i < a.len && #[trigger] u.has(i) && !a.has(i);
        assert(or_into(a.bits, other.bits)[i] != a.bits[i]);
    }
}

impl View for BitSet {
    type V = BitSetModel;

    closed spec fn view(&self) -> BitSetModel {
        BitSetModel { bits: all_bits(self.words@), len: self.len as nat }
    }
}

proof fn lemma_or_bit(a: u64, b: u64, k: u64)
    by (bit_vector)
    requires
        k < 64,
    ensures
        word_bit(a | b, k) == (word_bit(a, k) || word_bit(b, k)),
{
}

proof fn lemma_and_bit(a: u64, b: u64, k: u64)
    by (bit_vector)
    requires
        k < 64,
    ensures
        word_bit(a & b, k) == (word_bit(a, k) && word_bit(b, k)),
{
}

proof fn lemma_set_bit(w: u64, j: u64, k: u64)
    by (bit_vector)
    requires
        j < 64,
        k < 64,
    ensures
        word_bit(w | (1u64 << j), k) == (k == j || word_bit(w, k)),
        word_bit(w & !(1u64 << j), k) == (k != j && word_bit(w, k)),
{
}

proof fn lemma_test_bit(w: u64, j: u64)
    by (bit_vector)
    requires
        j < 64,
    ensures
        ((w & (1u64 << j)) != 0) == word_bit(w, j),
{
}

proof fn lemma_zero_bit(k: u64)
    by (bit_vector)
    requires
        k < 64,
    ensures
        !word_bit(0u64, k),
{
}

proof fn lemma_bits_determine_explicit(a: u64, b: u64)
    by (bit_vector)
    requires
        word_bit(a, 0u64) == word_bit(b, 0u64),
        word_bit(a, 1u64) == word_bit(b, 1u64),
        word_bit(a, 2u64) == word_bit(b, 2u64),
        word_bit(a, 3u64) == word_bit(b, 3u64),
        word_bit(a, 4u64) == word_bit(b, 4u64),
        word_bit(a, 5u64) == word_bit(b, 5u64),
        word_bit(a, 6u64) == word_bit(b, 6u64),
        word_bit(a, 7u64) == word_bit(b, 7u64),
        word_bit(a, 8u64) == word_bit(b, 8u64),
        word_bit(a, 9u64) == word_bit(b, 9u64),
        word_bit(a, 10u64) == word_bit(b, 10u64),
        word_bit(a, 11u64) == word_bit(b, 11u64),
        word_bit(a, 12u64) == word_bit(b, 12u64),
        word_bit(a, 13u64) == word_bit(b, 13u64),
        word_bit(a, 14u64) == word_bit(b, 14u64),
        word_bit(a, 15u64) == word_bit(b, 15u64),
        word_bit(a, 16u64) == word_bit(b, 16u64),
        word_bit(a, 17u64) == word_bit(b, 17u64),
        word_bit(a, 18u64) == word_bit(b, 18u64),
        word_bit(a, 19u64) == word_bit(b, 19u64),
        word_bit(a, 20u64) == word_bit(b, 20u64),
        word_bit(a, 21u64) == word_bit(b, 21u64),
        word_bit(a, 22u64) == word_bit(b, 22u64),
        word_bit(a, 23u64) == word_bit(b, 23u64),
        word_bit(a, 24u64) == word_bit(b, 24u64),
        word_bit(a, 25u64) == word_bit(b, 25u64),
        word_bit(a, 26u64) == word_bit(b, 26u64),
        word_bit(a, 27u64) == word_bit(b, 27u64),
        word_bit(a, 28u64) == word_bit(b, 28u64),
        word_bit(a, 29u64) == word_bit(b, 29u64),
        word_bit(a, 30u64) == word_bit(b, 30u64),
        word_bit(a, 31u64) == word_bit(b, 31u64),
        word_bit(a, 32u64) == word_bit(b, 32u64),
        word_bit(a, 33u64) == word_bit(b, 33u64),
        word_bit(a, 34u64) == word_bit(b, 34u64),
        word_bit(a, 35u64) == word_bit(b, 35u64),
        word_bit(a, 36u64) == word_bit(b, 36u64),
        word_bit(a, 37u64) == word_bit(b, 37u64),
        word_bit(a, 38u64) == word_bit(b, 38u64),
        word_bit(a, 39u64) == word_bit(b, 39u64),
        word_bit(a, 40u64) == word_bit(b, 40u64),
        word_bit(a, 41u64) == word_bit(b, 41u64),
        word_bit(a, 42u64) == word_bit(b, 42u64),
        word_bit(a, 43u64) == word_bit(b, 43u64),
        word_bit(a, 44u64) == word_bit(b, 44u64),
        word_bit(a, 45u64) == word_bit(b, 45u64),
        word_bit(a, 46u64) == word_bit(b, 46u64),
        word_bit(a, 47u64) == word_bit(b, 47u64),
        word_bit(a, 48u64) == word_bit(b, 48u64),
        word_bit(a, 49u64) == word_bit(b, 49u64),
        word_bit(a, 50u64) == word_bit(b, 50u64),
        word_bit(a, 51u64) == word_bit(b, 51u64),
        word_bit(a, 52u64) == word_bit(b, 52u64),
        word_bit(a, 53u64) == word_bit(b, 53u64),
        word_bit(a, 54u64) == word_bit(b, 54u64),
        word_bit(a, 55u64) == word_bit(b, 55u64),
        word_bit(a, 56u64) == word_bit(b, 56u64),
        word_bit(a, 57u64) == word_bit(b, 57u64),
        word_bit(a, 58u64) == word_bit(b, 58u64),
        word_bit(a, 59u64) == word_bit(b, 59u64),
        word_bit(a, 60u64) == word_bit(b, 60u64),
        word_bit(a, 61u64) == word_bit(b, 61u64),
        word_bit(a, 62u64) == word_bit(b, 62u64),
        word_bit(a, 63u64) == word_bit(b, 63u64),
    ensures
        a == b,
{
}

/// A word is determined by its bits.
proof fn lemma_bits_determine(a: u64, b: u64)
    requires
        word_bits(a) == word_bits(b),
    ensures
        a == b,
{
    assert forall|k: u64| k < 64 implies word_bit(a, k) == word_bit(b, k) by {
        let j: int = k as int;
        assert(j as u64 == k);
        assert(word_bits(a)[j] == word_bit(a, j as u64));
        assert(word_bits(b)[j] == word_bit(b, j as u64));
        assert(word_bits(a)[j] == word_bits(b)[j]);
    }
    assert(word_bit(a, 0u64) == word_bit(b, 0u64));
    assert(word_bit(a, 1u64) == word_bit(b, 1u64));
    assert(word_bit(a, 2u64) == word_bit(b, 2u64));
    assert(word_bit(a, 3u64) == word_bit(b, 3u64));
    assert(word_bit(a, 4u64) == word_bit(b, 4u64));
    assert(word_bit(a, 5u64) == word_bit(b, 5u64));
    assert(word_bit(a, 6u64) == word_bit(b, 6u64));
    assert(word_bit(a, 7u64) == word_bit(b, 7u64));
    assert(word_bit(a, 8u64) == word_bit(b, 8u64));
    assert(word_bit(a, 9u64) == word_bit(b, 9u64));
    assert(word_bit(a, 10u64) == word_bit(b, 10u64));
    assert(word_bit(a, 11u64) == word_bit(b, 11u64));
    assert(word_bit(a, 12u64) == word_bit(b, 12u64));
    assert(word_bit(a, 13u64) == word_bit(b, 13u64));
    assert(word_bit(a, 14u64) == word_bit(b, 14u64));
    assert(word_bit(a, 15u64) == word_bit(b, 15u64));
    assert(word_bit(a, 16u64) == word_bit(b, 16u64));
    assert(word_bit(a, 17u64) == word_bit(b, 17u64));
    assert(word_bit(a, 18u64) == word_bit(b, 18u64));
    assert(word_bit(a, 19u64) == word_bit(b, 19u64));
    assert(word_bit(a, 20u64) == word_bit(b, 20u64));
    assert(word_bit(a, 21u64) == word_bit(b, 21u64));
    assert(word_bit(a, 22u64) == word_bit(b, 22u64));
    assert(word_bit(a, 23u64) == word_bit(b, 23u64));
    assert(word_bit(a, 24u64) == word_bit(b, 24u64));
    assert(word_bit(a, 25u64) == word_bit(b, 25u64));
    assert(word_bit(a, 26u64) == word_bit(b, 26u64));
    assert(word_bit(a, 27u64) == word_bit(b, 27u64));
    assert(word_bit(a, 28u64) == word_bit(b, 28u64));
    assert(word_bit(a, 29u64) == word_bit(b, 29u64));
    assert(word_bit(a, 30u64) == word_bit(b, 30u64));
    assert(word_bit(a, 31u64) == word_bit(b, 31u64));
    assert(word_bit(a, 32u64) == word_bit(b, 32u64));
    assert(word_bit(a, 33u64) == word_bit(b, 33u64));
    assert(word_bit(a, 34u64) == word_bit(b, 34u64));
    assert(word_bit(a, 35u64) == word_bit(b, 35u64));
    assert(word_bit(a, 36u64) == word_bit(b, 36u64));
    assert(word_bit(a, 37u64) == word_bit(b, 37u64));
    assert(word_bit(a, 38u64) == word_bit(b, 38u64));
    assert(word_bit(a, 39u64) == word_bit(b, 39u64));
    assert(word_bit(a, 40u64) == word_bit(b, 40u64));
    assert(word_bit(a, 41u64) == word_bit(b, 41u64));
    assert(word_bit(a, 42u64) == word_bit(b, 42u64));
    assert(word_bit(a, 43u64) == word_bit(b, 43u64));
    assert(word_bit(a, 44u64) == word_bit(b, 44u64));
    assert(word_bit(a, 45u64) == word_bit(b, 45u64));
    assert(word_bit(a, 46u64) == word_bit(b, 46u64));
    assert(word_bit(a, 47u64) == word_bit(b, 47u64));
    assert(word_bit(a, 48u64) == word_bit(b, 48u64));
    assert(word_bit(a, 49u64) == word_bit(b, 49u64));
    assert(word_bit(a, 50u64) == word_bit(b, 50u64));
    assert(word_bit(a, 51u64) == word_bit(b, 51u64));
    assert(word_bit(a, 52u64) == word_bit(b, 52u64));
    assert(word_bit(a, 53u64) == word_bit(b, 53u64));
    assert(word_bit(a, 54u64) == word_bit(b, 54u64));
    assert(word_bit(a, 55u64) == word_bit(b, 55u64));
    assert(word_bit(a, 56u64) == word_bit(b, 56u64));
    assert(word_bit(a, 57u64) == word_bit(b, 57u64));
    assert(word_bit(a, 58u64) == word_bit(b, 58u64));
    assert(word_bit(a, 59u64) == word_bit(b, 59u64));
    assert(word_bit(a, 60u64) == word_bit(b, 60u64));
    assert(word_bit(a, 61u64) == word_bit(b, 61u64));
    assert(word_bit(a, 62u64) == word_bit(b, 62u64));
    assert(word_bit(a, 63u64) == word_bit(b, 63u64));
    lemma_bits_determine_explicit(a, b);
}

/// Bit `i` of the words is bit `i % 64` of word `i / 64`.
proof fn lemma_all_bits_index(words: Seq<u64>)
    ensures
        all_bits(words).len() == words.len() * 64,
        forall|i: int| 0 <= i < words.len() * 64 ==> #[trigger] all_bits(words)[i] == word_bit(
            words[i / 64],
            (i % 64) as u64,
        ),
    decreases words.len(),
{
    if words.len() > 0 {
        let p = words.drop_last();
        lemma_all_bits_index(p);
        assert forall|i: int| 0 <= i < words.len() * 64 implies #[trigger] all_bits(words)[i] == word_bit(
            words[i / 64],
            (i % 64) as u64,
        ) by {
            if i < p.len() * 64 {
                assert(i / 64 < p.len()) by (nonlinear_arith)
                    requires
                        0 <= i < p.len() * 64,
                ;
                assert(words[i / 64] == p[i / 64]);
            } else {
                let j = i - p.len() * 64;
                assert(i / 64 == p.len() && i % 64 == j) by (nonlinear_arith)
                    requires
                        j == i - p.len() * 64,
                        0 <= j < 64,
                ;
            }
        }
    }
}

/// Whole words: the bits of `words.push(w)` are those of `words` then those of `w`.
proof fn lemma_count_concat(a: Seq<bool>, b: Seq<bool>)
    ensures
        count_true(a + b) == count_true(a) + count_true(b),
    decreases b.len(),
{
    if b.len() == 0 {
        assert(a + b =~= a);
    } else {
        lemma_count_concat(a, b.drop_last());
        assert((a + b).drop_last() =~= a + b.drop_last());
    }
}

proof fn lemma_count_bound(s: Seq<bool>, k: int)
    requires
        0 <= k <= s.len(),
    ensures
        count_true(s.subrange(0, k)) <= count_true(s),
    decreases s.len() - k,
{
    if k < s.len() {
        lemma_count_bound(s, k + 1);
        assert(s.subrange(0, k + 1).drop_last() =~= s.subrange(0, k));
    } else {
        assert(s.subrange(0, k) =~= s);
    }
}

/// Number of set bits of a word.
pub fn word_popcount(w: u64) -> (r: u32)
    ensures
        r == count_true(word_bits(w)),
        r <= 64,
{
    let ghost bs = word_bits(w);
    let mut n: u32 = 0;
    let mut k: u64 = 0;
    assert(bs.subrange(0, 0) =~= Seq::<bool>::empty());
    while k < 64
        invariant
            bs == word_bits(w),
            k <= 64,
            n <= k,
            n == count_true(bs.subrange(0, k as int)),
        decreases 64 - k,
    {
        assert(bs.subrange(0, k + 1).drop_last() =~= bs.subrange(0, k as int));
        if (w >> k) & 1u64 == 1u64 {
            n += 1;
        }
        k += 1;
    }
    assert(bs.subrange(0, 64) =~= bs);
    n
}

impl BitSet {
    /// The words hold exactly the bits needed for `len` positions.
    pub closed spec fn wf(&self) -> bool {
        self.words@.len() == (self.len + 63) / 64
    }

    /// A set of `n` positions, none a member.
    pub fn with_len(n: usize) -> (r: Self)
        requires
            n + 63 <= usize::MAX,
        ensures
            r.wf(),
            r@.len == n,
            r@.bits == Seq::new(((n + 63) / 64) as nat * 64, |i: int| false),
    {
        let count = (n + 63) / 64;
        let mut words: Vec<u64> = Vec::new();
        let mut i: usize = 0;
        while i < count
            invariant
                i <= count,
                words@.len() == i,
                forall|j: int| 0 <= j < i ==> words@[j] == 0u64,
            decreases count - i,
        {
            words.push(0);
            i += 1;
        }
        let r = BitSet { words, len: n };
        proof {
            lemma_all_bits_index(words@);
            assert forall|i: int| 0 <= i < all_bits(words@).len() implies !#[trigger] all_bits(words@)[i] by {
                assert(0 <= i / 64 < words@.len()) by (nonlinear_arith)
                    requires
                        0 <= i < words@.len() * 64,
                ;
                lemma_zero_bit((i % 64) as u64);
            }
            assert(all_bits(words@) =~= Seq::new(((n + 63) / 64) as nat * 64, |i: int| false));
        }
        r
    }

    /// A well-formed set holds whole words covering its length.
    pub proof fn lemma_bits_len(&self)
        requires
            self.wf(),
        ensures
            self@.bits.len() == ((self@.len + 63) / 64) as nat * 64,
    {
        lemma_all_bits_index(self.words@);
    }

    /// A copy of the set.
    pub fn copy(&self) -> (r: Self)
        ensures
            r@ == self@,
            r.wf() == self.wf(),
    {
        let mut words: Vec<u64> = Vec::new();
        let mut i: usize = 0;
        while i < self.words.len()
            invariant
                i <= self.words@.len(),
                words@ == self.words@.subrange(0, i as int),
            decreases self.words@.len() - i,
        {
            words.push(self.words[i]);
            i += 1;
            assert(words@ =~= self.words@.subrange(0, i as int));
        }
        assert(words@ =~= self.words@);
        BitSet { words, len: self.len }
    }

    /// Number of positions.
    pub fn len(&self) -> (r: usize)
        ensures
            r == self@.len,
    {
        self.len
    }

    proof fn lemma_word_of(&self, i: int)
        requires
            self.wf(),
            0 <= i < self.len,
        ensures
            i / 64 < self.words@.len(),
            self@.bits.len() == self.words@.len() * 64,
            i < self@.bits.len(),
    {
        assert(i / 64 < (self.len + 63) / 64) by (nonlinear_arith)
            requires
                0 <= i < self.len,
        ;
        lemma_all_bits_index(self.words@);
        assert(i < self.words@.len() * 64) by (nonlinear_arith)
            requires
                i / 64 < self.words@.len(),
                0 <= i,
        ;
    }

    /// Makes `i` a member (no effect past the length).
    pub fn set(&mut self, i: usize)
        requires
            old(self).wf(),
        ensures
            final(self).wf(),
            final(self)@.len == old(self)@.len,
            i < old(self)@.len ==> final(self)@.bits == old(self)@.bits.update(i as int, true),
            i >= old(self)@.len ==> final(self)@.bits == old(self)@.bits,
    {
        if i < self.len {
            proof {
                self.lemma_word_of(i as int);
            }
            let k = i / 64;
            let j = (i % 64) as u64;
            let w = self.words[k];
            let ghost ow = self.words@;
            self.words.set(k, w | (1u64 << j));
            proof {
                lemma_all_bits_index(ow);
                lemma_all_bits_index(self.words@);
                assert forall|x: int| 0 <= x < self.words@.len() * 64 implies #[trigger] all_bits(self.words@)[x]
                    == all_bits(ow).update(i as int, true)[x] by {
                    let xk = x / 64;
                    let xj = (x % 64) as u64;
                    assert(0 <= x / 64 < ow.len()) by (nonlinear_arith)
                        requires
                            0 <= x < ow.len() * 64,
                    ;
                    if xk == k {
                        lemma_set_bit(w, j, xj);
                        assert(x == i <==> xj == j) by (nonlinear_arith)
                            requires
                                xk == x / 64,
                                xj == x % 64,
                                k == i / 64,
                                j == i % 64,
                                xk == k,
                        ;
                    } else {
                        assert(x != i);
                    }
                }
                assert(all_bits(self.words@) =~= all_bits(ow).update(i as int, true));
            }
        }
    }

    /// Removes `i` (no effect past the length).
    pub fn clear(&mut self, i: usize)
        requires
            old(self).wf(),
        ensures
            final(self).wf(),
            final(self)@.len == old(self)@.len,
            i < old(self)@.len ==> final(self)@.bits == old(self)@.bits.update(i as int, false),
            i >= old(self)@.len ==> final(self)@.bits == old(self)@.bits,
    {
        if i < self.len {
            proof {
                self.lemma_word_of(i as int);
            }
            let k = i / 64;
            let j = (i % 64) as u64;
            let w = self.words[k];
            let ghost ow = self.words@;
            self.words.set(k, w & !(1u64 << j));
            proof {
                lemma_all_bits_index(ow);
                lemma_all_bits_index(self.words@);
                assert forall|x: int| 0 <= x < self.words@.len() * 64 implies #[trigger] all_bits(self.words@)[x]
                    == all_bits(ow).update(i as int, false)[x] by {
                    let xk = x / 64;
                    let xj = (x % 64) as u64;
                    assert(0 <= x / 64 < ow.len()) by (nonlinear_arith)
                        requires
                            0 <= x < ow.len() * 64,
                    ;
                    if xk == k {
                        lemma_set_bit(w, j, xj);
                        assert(x == i <==> xj == j) by (nonlinear_arith)
                            requires
                                xk == x / 64,
                                xj == x % 64,
                                k == i / 64,
                                j == i % 64,
                                xk == k,
                        ;
                    } else {
                        assert(x != i);
                    }
                }
                assert(all_bits(self.words@) =~= all_bits(ow).update(i as int, false));
            }
        }
    }

    /// Adds every member of `other` (word by word over the words both have); whether any
    /// bit changed.
    pub fn union_with(&mut self, other: &BitSet) -> (r: bool)
        requires
            old(self).wf(),
        ensures
            final(self).wf(),
            final(self)@.len == old(self)@.len,
            final(self)@.bits == or_into(old(self)@.bits, other@.bits),
            r == (final(self)@.bits != old(self)@.bits),
    {
        let ghost ow = self.words@;
        let m = if self.words.len() < other.words.len() { self.words.len() } else { other.words.len() };
        let mut changed = false;
        let mut k: usize = 0;
        while k < m
            invariant
                m <= ow.len(),
                m <= other.words@.len(),
                k <= m,
                self.words@.len() == ow.len(),
                self.len == old(self).len,
                forall|t: int| 0 <= t < k ==> #[trigger] self.words@[t] == ow[t] | other.words@[t],
                forall|t: int| k <= t < ow.len() ==> #[trigger] self.words@[t] == ow[t],
                changed == exists|t: int| 0 <= t < k && (#[trigger] ow[t] | other.words@[t]) != ow[t],
            decreases m - k,
        {
            let a = self.words[k];
            let n = a | other.words[k];
            if n != a {
                changed = true;
            }
            self.words.set(k, n);
            k += 1;
        }
        proof {
            let nw = self.words@;
            lemma_all_bits_index(ow);
            lemma_all_bits_index(nw);
            lemma_all_bits_index(other.words@);
            assert forall|x: int| 0 <= x < nw.len() * 64 implies #[trigger] all_bits(nw)[x] == or_into(
                all_bits(ow),
                all_bits(other.words@),
            )[x] by {
                assert(0 <= x / 64 < ow.len()) by (nonlinear_arith)
                    requires
                        0 <= x < ow.len() * 64,
                ;
                assert(x < other.words@.len() * 64 <==> x / 64 < other.words@.len()) by (nonlinear_arith)
                    requires
                        0 <= x,
                ;
                if x / 64 < m {
                    lemma_or_bit(ow[x / 64], other.words@[x / 64], (x % 64) as u64);
                }
            }
            assert(all_bits(nw) =~= or_into(all_bits(ow), all_bits(other.words@)));
            if changed {
                let t = choose|t: int| 0 <= t < m && (#[trigger] ow[t] | other.words@[t]) != ow[t];
                assert(nw[t] != ow[t]);
                assert(word_bits(nw[t]) != word_bits(ow[t])) by {
                    if word_bits(nw[t]) == word_bits(ow[t]) {
                        lemma_bits_determine(nw[t], ow[t]);
                    }
                }
                assert(exists|j: int| 0 <= j < 64 && word_bits(nw[t])[j] != word_bits(ow[t])[j]) by {
                    if !(exists|j: int| 0 <= j < 64 && word_bits(nw[t])[j] != word_bits(ow[t])[j]) {
                        assert(word_bits(nw[t]) =~= word_bits(ow[t]));
                    }
                }
                let j = choose|j: int| 0 <= j < 64 && word_bits(nw[t])[j] != word_bits(ow[t])[j];
                let x = t * 64 + j;
                assert(x / 64 == t && x % 64 == j) by (nonlinear_arith)
                    requires
                        x == t * 64 + j,
                        0 <= j < 64,
                ;
                assert(0 <= x < nw.len() * 64) by (nonlinear_arith)
                    requires
                        x == t * 64 + j,
                        0 <= j < 64,
                        0 <= t < nw.len(),
                ;
                assert(all_bits(nw)[x] == word_bit(nw[t], j as u64));
                assert(all_bits(ow)[x] == word_bit(ow[t], j as u64));
                assert(all_bits(nw)[x] != all_bits(ow)[x]);
            } else {
                assert(nw =~= ow);
            }
        }
        changed
    }

    /// Keeps only the members also in `other` (word by word over the words both have).
    pub fn intersect_with(&mut self, other: &BitSet)
        requires
            old(self).wf(),
        ensures
            final(self).wf(),
            final(self)@.len == old(self)@.len,
            final(self)@.bits == and_into(old(self)@.bits, other@.bits),
    {
        let ghost ow = self.words@;
        let m = if self.words.len() < other.words.len() { self.words.len() } else { other.words.len() };
        let mut k: usize = 0;
        while k < m
            invariant
                m <= ow.len(),
                m <= other.words@.len(),
                k <= m,
                self.words@.len() == ow.len(),
                self.len == old(self).len,
                forall|t: int| 0 <= t < k ==> #[trigger] self.words@[t] == ow[t] & other.words@[t],
                forall|t: int| k <= t < ow.len() ==> #[trigger] self.words@[t] == ow[t],
            decreases m - k,
        {
            let a = self.words[k];
            self.words.set(k, a & other.words[k]);
            k += 1;
        }
        proof {
            let nw = self.words@;
            lemma_all_bits_index(ow);
            lemma_all_bits_index(nw);
            lemma_all_bits_index(other.words@);
            assert forall|x: int| 0 <= x < nw.len() * 64 implies #[trigger] all_bits(nw)[x] == and_into(
                all_bits(ow),
                all_bits(other.words@),
            )[x] by {
                assert(0 <= x / 64 < ow.len()) by (nonlinear_arith)
                    requires
                        0 <= x < ow.len() * 64,
                ;
                assert(x < other.words@.len() * 64 <==> x / 64 < other.words@.len()) by (nonlinear_arith)
                    requires
                        0 <= x,
                ;
                if x / 64 < m {
                    lemma_and_bit(ow[x / 64], other.words@[x / 64], (x % 64) as u64);
                }
            }
            assert(all_bits(nw) =~= and_into(all_bits(ow), all_bits(other.words@)));
        }
    }

    /// Number of set bits in the words.
    pub fn count_ones(&self) -> (r: u32)
        requires
            count_true(self@.bits) <= u32::MAX,
        ensures
            r == count_true(self@.bits),
    {
        let ghost ws = self.words@;
        let mut total: u32 = 0;
        let mut k: usize = 0;
        assert(ws.subrange(0, 0) =~= Seq::<u64>::empty());
        while k < self.words.len()
            invariant
                ws == self.words@,
                count_true(all_bits(ws)) <= u32::MAX,
                k <= ws.len(),
                total == count_true(all_bits(ws.subrange(0, k as int))),
            decreases ws.len() - k,
        {
            assert(ws.subrange(0, k + 1).drop_last() =~= ws.subrange(0, k as int));
            proof {
                lemma_count_concat(all_bits(ws.subrange(0, k as int)), word_bits(ws[k as int]));
                lemma_count_words_prefix(ws, k + 1);
            }
            total = total + word_popcount(self.words[k]);
            k += 1;
        }
        assert(ws.subrange(0, k as int) =~= ws);
        total
    }

    /// The members, in increasing order.
    pub fn iter_ones(&self) -> (r: Vec<usize>)
        requires
            self.wf(),
        ensures
            r@ == marked_positions(self@.members()),
    {
        let ghost ms = self@.members();
        let mut out: Vec<usize> = Vec::new();
        let mut i: usize = 0;
        assert(ms.subrange(0, 0) =~= Seq::<bool>::empty());
        while i < self.len
            invariant
                self.wf(),
                ms == self@.members(),
                i <= self.len,
                out@ == marked_positions(ms.subrange(0, i as int)),
            decreases self.len - i,
        {
            assert(ms.subrange(0, i + 1).drop_last() =~= ms.subrange(0, i as int));
            if self.get(i) {
                out.push(i);
            }
            i += 1;
        }
        assert(ms.subrange(0, i as int) =~= ms);
        out
    }

    /// Whether `i` is a member.
    pub fn get(&self, i: usize) -> (r: bool)
        requires
            self.wf(),
        ensures
            r == self@.has(i as int),
    {
        if i < self.len {
            proof {
                self.lemma_word_of(i as int);
                lemma_all_bits_index(self.words@);
            }
            let w = self.words[i / 64];
            let j = (i % 64) as u64;
            proof {
                lemma_test_bit(w, j);
            }
            (w & (1u64 << j)) != 0
        } else {
            false
        }
    }
}


proof fn lemma_count_words_prefix(ws: Seq<u64>, k: int)
    requires
        0 <= k <= ws.len(),
    ensures
        count_true(all_bits(ws.subrange(0, k))) <= count_true(all_bits(ws)),
    decreases ws.len() - k,
{
    if k < ws.len() {
        lemma_count_words_prefix(ws, k + 1);
        assert(ws.subrange(0, k + 1).drop_last() =~= ws.subrange(0, k));
        lemma_count_concat(all_bits(ws.subrange(0, k)), word_bits(ws[k]));
    } else {
        assert(ws.subrange(0, k) =~= ws);
    }
}

/// The bits of every set, in order, or-ed into `acc`.
pub open spec fn union_all(acc: Seq<bool>, sets: Seq<BitSetModel>) -> Seq<bool>
    decreases sets.len(),
{
    if sets.len() == 0 {
        acc
    } else {
        or_into(union_all(acc, sets.drop_last()), sets.last().bits)
    }
}

/// The union of the sets, as long as the first (empty for no sets).
pub fn live_union(sets: &[BitSet]) -> (r: BitSet)
    requires
        sets@.len() > 0 ==> sets@[0]@.len + 63 <= usize::MAX,
    ensures
        r.wf(),
        r@.len == (if sets@.len() > 0 { sets@[0]@.len } else { 0 }),
        r@.bits == union_all(
            Seq::new((((if sets@.len() > 0 { sets@[0]@.len } else { 0 }) + 63) / 64) as nat * 64, |i: int| false),
            sets@.map_values(|s: BitSet| s@),
        ),
{
    let n = if sets.len() > 0 { sets[0].len() } else { 0 };
    let mut out = BitSet::with_len(n);
    let ghost zero = out@.bits;
    let ghost ms = sets@.map_values(|s: BitSet| s@);
    let mut i: usize = 0;
    assert(ms.subrange(0, 0) =~= Seq::<BitSetModel>::empty());
    while i < sets.len()
        invariant
            ms == sets@.map_values(|s: BitSet| s@),
            i <= sets@.len(),
            out.wf(),
            out@.len == n,
            out@.bits == union_all(zero, ms.subrange(0, i as int)),
        decreases sets@.len() - i,
    {
        assert(ms.subrange(0, i + 1).drop_last() =~= ms.subrange(0, i as int));
        assert(ms[i as int] == sets@[i as int]@);
        let _ = out.union_with(&sets[i]);
        i += 1;
    }
    assert(ms.subrange(0, i as int) =~= ms);
    out
}

} // verus!
