//! Linear equations over the field with two elements, held as bit vectors,
//! and systems of them.
use crate::math::span::{
    combination, in_span, lemma_combination_bit, lemma_combination_len, lemma_combination_of_none,
    lemma_parity_of_own_column, lemma_parity_without_chosen_ones, lemma_row_in_span,
    lemma_same_span, lemma_span_closed, lemma_span_grows, lemma_span_of_insert, lemma_span_shift,
    lemma_span_with_member, lemma_span_with_shifted, lemma_vectors_equal, lemma_xor_cancels,
    lemma_zero_in_span, rows_of, same_span, xor_vector, zero_vector,
};
use crate::math::word::{lemma_highest_difference, lemma_word_by_bits, lemma_word_order, word_bit};
use std::cmp::Ordering;
use vstd::prelude::*;
use vstd::std_specs::cmp::{PartialEqSpecImpl, PartialOrdSpecImpl};

verus! {

/// The number of ones among the lowest `n` bits of a word.
pub open spec fn word_ones(w: u128, n: nat) -> nat
    decreases n,
{
    if n == 0 {
        0
    } else {
        word_ones(w, (n - 1) as nat) + if word_bit(w, (n - 1) as u128) {
            1nat
        } else {
            0nat
        }
    }
}

/// The number of ones in a sequence of bits.
pub open spec fn count_true(s: Seq<bool>) -> nat
    decreases s.len(),
{
    if s.len() == 0 {
        0
    } else {
        count_true(s.drop_last()) + if s.last() {
            1nat
        } else {
            0nat
        }
    }
}

/// The number of zero bits above the highest one of a word, by
/// `leading_zeros` of std: 128 for the word 0; for any other word the bit
/// that many below the top is a one and all bits above it are zeros.
#[verifier::external_body]
fn word_leading_zeros(w: u128) -> (r: u32)
    ensures
        r <= 128,
        r == 128 <==> w == 0,
        r < 128 ==> word_bit(w, (127 - r) as u128),
        forall|j: u128| 128 - r <= j < 128 ==> !#[trigger] word_bit(w, j),
{
    w.leading_zeros()
}

/// The number of ones in the binary representation of a word, by
/// `count_ones` of std.
#[verifier::external_body]
fn word_count_ones(w: u128) -> (r: u32)
    ensures
        r == word_ones(w, 128),
{
    w.count_ones()
}

/// Setting a bit of a word makes that bit a one and leaves the others.
proof fn lemma_word_set(w: u128, k: u128, j: u128)
    requires
        k < 128,
        j < 128,
    ensures
        word_bit(w | (1u128 << k), j) == (j == k || word_bit(w, j)),
{
    assert(((w | (1u128 << k)) >> j) & 1 == 1 <==> (j == k || (w >> j) & 1 == 1)) by (bit_vector)
        requires
            k < 128,
            j < 128,
    ;
}

/// Clearing a bit of a word makes that bit a zero and leaves the others.
proof fn lemma_word_unset(w: u128, k: u128, j: u128)
    requires
        k < 128,
        j < 128,
    ensures
        word_bit(w & !(1u128 << k), j) == (j != k && word_bit(w, j)),
{
    assert(((w & !(1u128 << k)) >> j) & 1 == 1 <==> (j != k && (w >> j) & 1 == 1)) by (bit_vector)
        requires
            k < 128,
            j < 128,
    ;
}

/// Flipping a bit of a word inverts that bit and leaves the others.
proof fn lemma_word_flip(w: u128, k: u128, j: u128)
    requires
        k < 128,
        j < 128,
    ensures
        word_bit(w ^ (1u128 << k), j) == (word_bit(w, j) != (j == k)),
{
    assert(((w ^ (1u128 << k)) >> j) & 1 == 1 <==> (((w >> j) & 1 == 1) != (j == k)))
        by (bit_vector)
        requires
            k < 128,
            j < 128,
    ;
}

/// The exclusive or of two words has, bit by bit, the exclusive or of
/// their bits.
proof fn lemma_word_xor(a: u128, b: u128, j: u128)
    requires
        j < 128,
    ensures
        word_bit(a ^ b, j) == (word_bit(a, j) != word_bit(b, j)),
{
    assert(((a ^ b) >> j) & 1 == 1 <==> (((a >> j) & 1 == 1) != ((b >> j) & 1 == 1)))
        by (bit_vector)
        requires
            j < 128,
    ;
}

/// The word 0 has no one bit.
proof fn lemma_word_zero(j: u128)
    requires
        j < 128,
    ensures
        !word_bit(0, j),
{
    assert(!((0u128 >> j) & 1 == 1)) by (bit_vector)
        requires
            j < 128,
    ;
}

/// Among `n` bits there are at most `n` ones.
pub proof fn lemma_word_ones_bound(w: u128, n: nat)
    ensures
        word_ones(w, n) <= n,
    decreases n,
{
    if n > 0 {
        lemma_word_ones_bound(w, (n - 1) as nat);
    }
}

/// A sequence of bits has at most as many ones as bits; as many exactly
/// where all are ones, and none exactly where all are zeros.
pub proof fn lemma_count_true_bounds(s: Seq<bool>)
    ensures
        count_true(s) <= s.len(),
        count_true(s) == s.len() <==> forall|i: int| 0 <= i < s.len() ==> s[i],
        count_true(s) == 0 <==> forall|i: int| 0 <= i < s.len() ==> !s[i],
    decreases s.len(),
{
    if s.len() > 0 {
        let front = s.drop_last();
        lemma_count_true_bounds(front);
        if forall|i: int| 0 <= i < s.len() ==> s[i] {
            assert forall|i: int| 0 <= i < front.len() implies front[i] by {
                assert(s[i]);
            }
        }
        if forall|i: int| 0 <= i < s.len() ==> !s[i] {
            assert forall|i: int| 0 <= i < front.len() implies !front[i] by {
                assert(!s[i]);
            }
        }
        if count_true(s) == s.len() {
            assert forall|i: int| 0 <= i < s.len() implies s[i] by {
                if i < front.len() {
                    assert(front[i]);
                }
            }
        }
        if count_true(s) == 0 {
            assert forall|i: int| 0 <= i < s.len() implies !s[i] by {
                if i < front.len() {
                    assert(!front[i]);
                }
            }
        }
    }
}

/// All bits of a sequence of words, 128 for each word.
pub open spec fn all_bits(f: Seq<u128>) -> Seq<bool> {
    Seq::new(128 * f.len(), |i: int| word_bit(f[i / 128], (i % 128) as u128))
}

/// The ones of whole words and of the lowest `n` bits of the next word are
/// the ones of the words before and those of the `n` bits.
proof fn lemma_count_words(f: Seq<u128>, m: int, n: nat)
    requires
        0 <= m < f.len(),
        n <= 128,
    ensures
        count_true(all_bits(f).take(128 * m + n)) == count_true(all_bits(f).take(128 * m))
            + word_ones(f[m], n),
    decreases n,
{
    if n > 0 {
        lemma_count_words(f, m, (n - 1) as nat);
        let upto = all_bits(f).take(128 * m + n);
        assert(upto.drop_last() =~= all_bits(f).take(128 * m + n - 1));
        assert(upto.last() == word_bit(f[m], (n - 1) as u128));
    }
}

/// Zero bits behind a sequence of bits add no ones.
proof fn lemma_count_ignores_zeros(s: Seq<bool>, n: int)
    requires
        0 <= n <= s.len(),
        forall|i: int| n <= i < s.len() ==> !s[i],
    ensures
        count_true(s) == count_true(s.take(n)),
    decreases s.len() - n,
{
    if n < s.len() {
        assert(s.drop_last().take(n) =~= s.take(n));
        lemma_count_ignores_zeros(s.drop_last(), n);
    } else {
        assert(s.take(n) =~= s);
    }
}

/// A linear equation over the field with two elements: one bit for each
/// of its `equation_size` dimensions, kept in 128-bit words.
pub struct ZeroOneLinearEquation {
    f: Vec<u128>,
    equation_size: usize,
}

impl View for ZeroOneLinearEquation {
    type V = Seq<bool>;

    /// The bits of the equation, one for each dimension.
    closed spec fn view(&self) -> Seq<bool> {
        Seq::new(
            self.equation_size as nat,
            |i: int| word_bit(self.f@[i / 128], (i % 128) as u128),
        )
    }
}

impl Clone for ZeroOneLinearEquation {
    /// The clone has the same bits.
    fn clone(&self) -> (r: Self)
        ensures
            self.wf() ==> r.wf(),
            r@ == self@,
    {
        let r = ZeroOneLinearEquation { f: self.f.clone(), equation_size: self.equation_size };
        assert(r.f@ =~= self.f@);
        r
    }
}

impl ZeroOneLinearEquation {
    /// The representation invariant: there are as many words as the
    /// dimensions need, and the bits of the last word beyond the dimensions
    /// are zeros.
    pub closed spec fn wf(&self) -> bool {
        &&& self.equation_size + 127 <= usize::MAX
        &&& self.f@.len() == (self.equation_size + 127) / 128
        &&& forall|i: int|
            self.equation_size <= i < 128 * self.f@.len() ==> !word_bit(
                #[trigger] self.f@[i / 128],
                (i % 128) as u128,
            )
    }

    /// Creates the equation with `size` dimensions and all bits zero.
    pub fn new(size: usize) -> (r: Self)
        requires
            size + 127 <= usize::MAX,
        ensures
            r.wf(),
            r@ == Seq::new(size as nat, |i: int| false),
    {
        let words = (size + 127) / 128;
        let mut f: Vec<u128> = Vec::new();
        let mut i: usize = 0;
        while i < words
            invariant
                i <= words,
                f@.len() == i,
                forall|j: int| 0 <= j < i ==> #[trigger] f@[j] == 0,
            decreases words - i,
        {
            f.push(0);
            i += 1;
        }
        let r = ZeroOneLinearEquation { f, equation_size: size };
        proof {
            assert forall|i: int| 0 <= i < 128 * r.f@.len() implies !word_bit(
                #[trigger] r.f@[i / 128],
                (i % 128) as u128,
            ) by {
                lemma_word_zero((i % 128) as u128);
            }
            assert(r@ =~= Seq::new(size as nat, |i: int| false));
        }
        r
    }

    /// Sets the bit of dimension `i` to 1.
    pub fn set_i(&mut self, i: usize)
        requires
            old(self).wf(),
            i < old(self)@.len(),
        ensures
            final(self).wf(),
            final(self)@ == old(self)@.update(i as int, true),
    {
        let at = i / 128;
        let k = (i % 128) as u128;
        let word = self.f[at];
        self.f[at] = word | (1u128 << k);
        proof {
            self.lemma_word_changed(*old(self), at as int);
            let target = old(self)@.update(i as int, true);
            assert forall|p: int| 0 <= p < 128 * self.f@.len() implies word_bit(
                #[trigger] self.f@[p / 128],
                (p % 128) as u128,
            ) == if p == i {
                true
            } else {
                word_bit(old(self).f@[p / 128], (p % 128) as u128)
            } by {
                if p / 128 == at {
                    lemma_word_set(word, k, (p % 128) as u128);
                }
            }
            assert forall|p: int| 0 <= p < self@.len() implies self@[p] == target[p] by {
                assert(word_bit(self.f@[p / 128], (p % 128) as u128) == if p == i {
                    true
                } else {
                    word_bit(old(self).f@[p / 128], (p % 128) as u128)
                });
            }
            assert(self@ =~= target);
        }
    }

    /// Sets the bit of dimension `i` to 0.
    pub fn unset_i(&mut self, i: usize)
        requires
            old(self).wf(),
            i < old(self)@.len(),
        ensures
            final(self).wf(),
            final(self)@ == old(self)@.update(i as int, false),
    {
        let at = i / 128;
        let k = (i % 128) as u128;
        let word = self.f[at];
        self.f[at] = word & !(1u128 << k);
        proof {
            self.lemma_word_changed(*old(self), at as int);
            let target = old(self)@.update(i as int, false);
            assert forall|p: int| 0 <= p < 128 * self.f@.len() implies word_bit(
                #[trigger] self.f@[p / 128],
                (p % 128) as u128,
            ) == if p == i {
                false
            } else {
                word_bit(old(self).f@[p / 128], (p % 128) as u128)
            } by {
                if p / 128 == at {
                    lemma_word_unset(word, k, (p % 128) as u128);
                }
            }
            assert forall|p: int| 0 <= p < self@.len() implies self@[p] == target[p] by {
                assert(word_bit(self.f@[p / 128], (p % 128) as u128) == if p == i {
                    false
                } else {
                    word_bit(old(self).f@[p / 128], (p % 128) as u128)
                });
            }
            assert(self@ =~= target);
        }
    }

    /// Inverts the bit of dimension `i`.
    pub fn flip_i(&mut self, i: usize)
        requires
            old(self).wf(),
            i < old(self)@.len(),
        ensures
            final(self).wf(),
            final(self)@ == old(self)@.update(i as int, !old(self)@[i as int]),
    {
        let at = i / 128;
        let k = (i % 128) as u128;
        let word = self.f[at];
        self.f[at] = word ^ (1u128 << k);
        proof {
            self.lemma_word_changed(*old(self), at as int);
            let target = old(self)@.update(i as int, !old(self)@[i as int]);
            assert forall|p: int| 0 <= p < 128 * self.f@.len() implies word_bit(
                #[trigger] self.f@[p / 128],
                (p % 128) as u128,
            ) == if p == i {
                !old(self)@[i as int]
            } else {
                word_bit(old(self).f@[p / 128], (p % 128) as u128)
            } by {
                if p / 128 == at {
                    lemma_word_flip(word, k, (p % 128) as u128);
                }
            }
            assert forall|p: int| 0 <= p < self@.len() implies self@[p] == target[p] by {
                assert(word_bit(self.f@[p / 128], (p % 128) as u128) == if p == i {
                    !old(self)@[i as int]
                } else {
                    word_bit(old(self).f@[p / 128], (p % 128) as u128)
                });
            }
            assert(self@ =~= target);
        }
    }

    /// After one word changed, the words are as many and the other words
    /// are the same.
    proof fn lemma_word_changed(&self, before: Self, at: int)
        requires
            0 <= at < before.f@.len(),
            self.f@ == before.f@.update(at, self.f@[at]),
            self.equation_size == before.equation_size,
        ensures
            self.f@.len() == before.f@.len(),
            forall|i: int| 0 <= i < self.f@.len() && i != at ==> self.f@[i] == before.f@[i],
    {
    }

    /// Returns the bit of dimension `i`.
    pub fn get_i(&self, i: usize) -> (r: bool)
        requires
            self.wf(),
            i < self@.len(),
        ensures
            r == self@[i as int],
    {
        (self.f[i / 128] >> ((i % 128) as u128)) & 1 == 1
    }

    /// Returns the number of dimensions.
    pub fn equation_size(&self) -> (r: usize)
        ensures
            r == self@.len(),
    {
        self.equation_size
    }

    /// The bits of the equation are the bits of its words up to the number
    /// of dimensions, and the bits beyond are zeros.
    proof fn lemma_view_is_prefix(&self)
        requires
            self.wf(),
        ensures
            self@ == all_bits(self.f@).take(self.equation_size as int),
            count_true(self@) == count_true(all_bits(self.f@)),
    {
        let all = all_bits(self.f@);
        assert(self@ =~= all.take(self.equation_size as int));
        lemma_count_ignores_zeros(all, self.equation_size as int);
    }

    /// Returns the number of bits that are 1.
    pub fn count_ones(&self) -> (r: usize)
        requires
            self.wf(),
        ensures
            r == count_true(self@),
            r <= self@.len(),
    {
        let ghost all = all_bits(self.f@);
        let mut total: usize = 0;
        let mut w: usize = 0;
        assert(all.take(0) =~= Seq::<bool>::empty());
        while w < self.f.len()
            invariant
                self.wf(),
                all == all_bits(self.f@),
                w <= self.f@.len(),
                total == count_true(all.take(128 * w)),
                total <= 128 * w,
            decreases self.f@.len() - w,
        {
            let ones = word_count_ones(self.f[w]);
            proof {
                lemma_count_words(self.f@, w as int, 128);
                lemma_word_ones_bound(self.f@[w as int], 128);
            }
            total += ones as usize;
            w += 1;
        }
        proof {
            assert(all.take(128 * w) =~= all);
            self.lemma_view_is_prefix();
            lemma_count_true_bounds(self@);
        }
        total
    }

    /// Returns the number of bits that are 0.
    pub fn count_zeros(&self) -> (r: usize)
        requires
            self.wf(),
        ensures
            r == self@.len() - count_true(self@),
    {
        self.equation_size - self.count_ones()
    }

    /// Returns whether all bits are 1.
    pub fn is_all_ones(&self) -> (r: bool)
        requires
            self.wf(),
        ensures
            r == forall|i: int| 0 <= i < self@.len() ==> self@[i],
    {
        proof {
            lemma_count_true_bounds(self@);
        }
        self.count_zeros() == 0
    }

    /// Returns whether all bits are 0.
    pub fn is_all_zeros(&self) -> (r: bool)
        requires
            self.wf(),
        ensures
            r == forall|i: int| 0 <= i < self@.len() ==> !self@[i],
    {
        proof {
            lemma_count_true_bounds(self@);
        }
        self.count_ones() == 0
    }

    /// Returns the highest dimension whose bit is 1, or nothing where all
    /// bits are 0.
    pub fn highest_one_bit(&self) -> (r: Option<usize>)
        requires
            self.wf(),
        ensures
            match r {
                Some(h) => h < self@.len() && self@[h as int] && forall|i: int|
                    h < i < self@.len() ==> !self@[i],
                None => forall|i: int| 0 <= i < self@.len() ==> !self@[i],
            },
    {
        let mut w: usize = self.f.len();
        while w > 0
            invariant
                self.wf(),
                w <= self.f@.len(),
                forall|j: int| w <= j < self.f@.len() ==> #[trigger] self.f@[j] == 0,
            decreases w,
        {
            w -= 1;
            let word = self.f[w];
            if word != 0 {
                let zeros = word_leading_zeros(word);
                let h = w * 128 + 127 - zeros as usize;
                proof {
                    let top = (127 - zeros) as int;
                    assert(h / 128 == w && h % 128 == top);
                    assert(word_bit(self.f@[(h as int) / 128], ((h as int) % 128) as u128));
                    assert(h < self.equation_size);
                    assert forall|i: int| h < i < self@.len() implies !self@[i] by {
                        if i / 128 == w {
                            assert(!word_bit(word, (i % 128) as u128));
                        } else {
                            assert(self.f@[i / 128] == 0);
                            lemma_word_zero((i % 128) as u128);
                        }
                    }
                }
                return Some(h);
            }
        }
        proof {
            assert forall|i: int| 0 <= i < self@.len() implies !self@[i] by {
                assert(self.f@[i / 128] == 0);
                lemma_word_zero((i % 128) as u128);
            }
        }
        None
    }

    /// Adds `other` to the equation: every bit becomes the exclusive or of
    /// the bits of the two.
    pub fn xor(&mut self, other: &ZeroOneLinearEquation)
        requires
            old(self).wf(),
            other.wf(),
            old(self)@.len() == other@.len(),
        ensures
            final(self).wf(),
            final(self)@.len() == old(self)@.len(),
            forall|i: int|
                0 <= i < old(self)@.len() ==> #[trigger] final(self)@[i] == (old(self)@[i]
                    != other@[i]),
    {
        let mut w: usize = 0;
        while w < self.f.len()
            invariant
                other.wf(),
                self.equation_size == old(self).equation_size,
                self.equation_size == other.equation_size,
                self.f@.len() == old(self).f@.len(),
                self.f@.len() == other.f@.len(),
                w <= self.f@.len(),
                forall|j: int|
                    0 <= j < w ==> #[trigger] self.f@[j] == old(self).f@[j] ^ other.f@[j],
                forall|j: int| w <= j < self.f@.len() ==> #[trigger] self.f@[j] == old(self).f@[j],
            decreases self.f@.len() - w,
        {
            let word = self.f[w] ^ other.f[w];
            self.f[w] = word;
            w += 1;
        }
        proof {
            assert forall|i: int| 0 <= i < 128 * self.f@.len() implies word_bit(
                #[trigger] self.f@[i / 128],
                (i % 128) as u128,
            ) == (word_bit(old(self).f@[i / 128], (i % 128) as u128) != word_bit(
                other.f@[i / 128],
                (i % 128) as u128,
            )) by {
                lemma_word_xor(old(self).f@[i / 128], other.f@[i / 128], (i % 128) as u128);
            }
            assert forall|i: int| 0 <= i < old(self)@.len() implies #[trigger] self@[i] == (old(
                self,
            )@[i] != other@[i]) by {
                assert(word_bit(self.f@[i / 128], (i % 128) as u128) == (word_bit(
                    old(self).f@[i / 128],
                    (i % 128) as u128,
                ) != word_bit(other.f@[i / 128], (i % 128) as u128)));
            }
        }
    }
}

/// The first `n` words of `a`, read as one binary number with the last
/// word as its highest digits, are less than those of `b`.
pub open spec fn words_less(a: Seq<u128>, b: Seq<u128>, n: nat) -> bool
    decreases n,
{
    if n == 0 {
        false
    } else if a[n - 1] != b[n - 1] {
        a[n - 1] < b[n - 1]
    } else {
        words_less(a, b, (n - 1) as nat)
    }
}

/// The number of words gone through.
pub open spec fn words_gone(i: usize) -> nat {
    i as nat
}

/// `b` has a one and `a` a zero at the bit `j` of their words, and above
/// `j` the two agree.
spec fn less_at(a: Seq<u128>, b: Seq<u128>, j: int) -> bool {
    &&& 0 <= j < 128 * a.len()
    &&& !all_bits(a)[j]
    &&& all_bits(b)[j]
    &&& forall|x: int| j < x < 128 * a.len() ==> all_bits(a)[x] == all_bits(b)[x]
}

/// Words that are less have, in the first word from the top in which they
/// differ, a zero where the others have a one at the highest bit in which
/// they differ.
proof fn lemma_words_less_has_bit(a: Seq<u128>, b: Seq<u128>, n: nat) -> (j: int)
    requires
        a.len() == b.len(),
        n <= a.len(),
        forall|w: int| n <= w < a.len() ==> a[w] == b[w],
        words_less(a, b, n),
    ensures
        less_at(a, b, j),
    decreases n,
{
    let w = (n - 1) as int;
    if a[w] != b[w] {
        let k = lemma_highest_difference(a[w], b[w], 127);
        if word_bit(a[w], k as u128) {
            lemma_word_order(b[w], a[w], k);
        }
        let j = 128 * w + k;
        assert(j / 128 == w && j % 128 == k);
        assert forall|x: int| j < x < 128 * a.len() implies all_bits(a)[x] == all_bits(b)[x] by {
            if x / 128 == w {
                assert(word_bit(a[w], (x % 128) as u128) == word_bit(b[w], (x % 128) as u128));
            } else {
                assert(a[x / 128] == b[x / 128]);
            }
        }
        j
    } else {
        lemma_words_less_has_bit(a, b, (n - 1) as nat)
    }
}

/// Words of which the first from the top that differs is less are less.
proof fn lemma_words_less_from(a: Seq<u128>, b: Seq<u128>, n: nat, w: int)
    requires
        a.len() == b.len(),
        0 <= w < n <= a.len(),
        a[w] < b[w],
        forall|x: int| w < x < n ==> a[x] == b[x],
    ensures
        words_less(a, b, n),
    decreases n,
{
    if n - 1 > w {
        lemma_words_less_from(a, b, (n - 1) as nat, w);
    }
}

/// Words with a zero where the others have a one at the highest bit in
/// which they differ are less.
proof fn lemma_bit_makes_less(a: Seq<u128>, b: Seq<u128>, j: int)
    requires
        a.len() == b.len(),
        less_at(a, b, j),
    ensures
        words_less(a, b, a.len()),
{
    let w = j / 128;
    let k = j % 128;
    assert forall|x: u128| k < x < 128 implies word_bit(a[w], x) == word_bit(b[w], x) by {
        let at = 128 * w + x;
        assert(at / 128 == w && at % 128 == x);
        assert(all_bits(a)[at] == all_bits(b)[at]);
    }
    lemma_word_order(a[w], b[w], k as nat);
    assert forall|v: int| w < v < a.len() implies a[v] == b[v] by {
        assert forall|x: u128| x < 128 implies word_bit(a[v], x) == word_bit(b[v], x) by {
            let at = 128 * v + x;
            assert(at / 128 == v && at % 128 == x);
            assert(all_bits(a)[at] == all_bits(b)[at]);
        }
        lemma_word_by_bits(a[v], b[v]);
    }
    lemma_words_less_from(a, b, a.len(), w);
}

/// `p` is the highest position at which `row` has a one.
pub open spec fn leads(row: Seq<bool>, p: int) -> bool {
    &&& 0 <= p < row.len()
    &&& row[p]
    &&& forall|i: int| p < i < row.len() ==> !row[i]
}

/// The rows are a basis in reduced form: each row has its pivot as its
/// highest one, no other row has a one at that pivot, and the pivots go
/// down from row to row.
pub open spec fn reduced(rows: Seq<Seq<bool>>, pivots: Seq<usize>) -> bool {
    &&& pivots.len() == rows.len()
    &&& forall|k: int| 0 <= k < rows.len() ==> leads(#[trigger] rows[k], pivots[k] as int)
    &&& forall|k: int, m: int|
        0 <= k < rows.len() && 0 <= m < rows.len() && k != m ==> !(#[trigger] rows[m])[(
        #[trigger] pivots[k]) as int]
    &&& forall|k: int, m: int| 0 <= k < m < rows.len() ==> pivots[k] > pivots[m]
}

/// How far the elimination has come when the bits from `b` up are done
/// and `l` pivots are found: the first `l` rows are reduced against all
/// rows, with pivots from `b` up, and the other rows have no one from `b`
/// up.
pub open spec fn eliminated(rows: Seq<Seq<bool>>, pivots: Seq<usize>, l: int, b: int) -> bool {
    &&& 0 <= l <= rows.len()
    &&& pivots.len() == l
    &&& forall|k: int| 0 <= k < l ==> leads(#[trigger] rows[k], pivots[k] as int) && pivots[k] >= b
    &&& forall|k: int, m: int|
        0 <= k < l && 0 <= m < rows.len() && k != m ==> !(#[trigger] rows[m])[(
        #[trigger] pivots[k]) as int]
    &&& forall|k: int, m: int| 0 <= k < m < l ==> pivots[k] > pivots[m]
    &&& forall|m: int, i: int|
        l <= m < rows.len() && b <= i < rows[m].len() ==> !#[trigger] rows[m][i]
}

/// The rows after `v` was added to those of the rows `from..to`, but for
/// the row `skip`, that have a one at `bit`.
pub open spec fn cleared(
    before: Seq<Seq<bool>>,
    after: Seq<Seq<bool>>,
    from: int,
    to: int,
    skip: int,
    v: Seq<bool>,
    bit: int,
) -> bool {
    &&& after.len() == before.len()
    &&& forall|k: int|
        0 <= k < before.len() ==> #[trigger] after[k] == if from <= k < to && k != skip
            && before[k][bit] {
            xor_vector(before[k], v)
        } else {
            before[k]
        }
}

/// Adding a row to other rows keeps the span.
pub proof fn lemma_cleared_keeps_span(
    before: Seq<Seq<bool>>,
    after: Seq<Seq<bool>>,
    from: int,
    to: int,
    skip: int,
    bit: int,
    n: nat,
)
    requires
        rows_of(before, n),
        0 <= skip < before.len(),
        cleared(before, after, from, to, skip, before[skip], bit),
    ensures
        rows_of(after, n),
        same_span(after, before, n),
{
    let v = before[skip];
    assert(rows_of(after, n)) by {
        assert forall|k: int| 0 <= k < after.len() implies (#[trigger] after[k]).len() == n by {
            assert(before[k].len() == n);
        }
    }
    assert(after[skip] == v);
    assert forall|k: int| 0 <= k < after.len() implies in_span(before, #[trigger] after[k], n) by {
        lemma_row_in_span(before, k, n);
        lemma_row_in_span(before, skip, n);
        if from <= k < to && k != skip && before[k][bit] {
            lemma_span_closed(before, before[k], v, n);
        }
    }
    assert forall|k: int| 0 <= k < before.len() implies in_span(after, #[trigger] before[k], n) by {
        lemma_row_in_span(after, k, n);
        lemma_row_in_span(after, skip, n);
        if from <= k < to && k != skip && before[k][bit] {
            lemma_span_closed(after, after[k], v, n);
            assert(before[k].len() == v.len()) by {
                assert(before[skip].len() == n);
            }
            lemma_xor_cancels(before[k], v);
        }
    }
    lemma_same_span(after, before, n);
}

/// Exchanging two rows keeps the span.
pub proof fn lemma_swap_keeps_span(rows: Seq<Seq<bool>>, a: int, b: int, n: nat)
    requires
        rows_of(rows, n),
        0 <= a < rows.len(),
        0 <= b < rows.len(),
    ensures
        rows_of(rows.update(a, rows[b]).update(b, rows[a]), n),
        same_span(rows.update(a, rows[b]).update(b, rows[a]), rows, n),
{
    let after = rows.update(a, rows[b]).update(b, rows[a]);
    assert(rows_of(after, n)) by {
        assert forall|k: int| 0 <= k < after.len() implies (#[trigger] after[k]).len() == n by {
            assert(rows[k].len() == n);
            assert(rows[a].len() == n);
            assert(rows[b].len() == n);
        }
    }
    assert forall|k: int| 0 <= k < after.len() implies in_span(rows, #[trigger] after[k], n) by {
        lemma_row_in_span(rows, k, n);
        lemma_row_in_span(rows, a, n);
        lemma_row_in_span(rows, b, n);
    }
    assert forall|k: int| 0 <= k < rows.len() implies in_span(after, #[trigger] rows[k], n) by {
        lemma_row_in_span(after, k, n);
        lemma_row_in_span(after, a, n);
        lemma_row_in_span(after, b, n);
    }
    lemma_same_span(after, rows, n);
}

/// Leaving out rows of zeros at the end keeps the span.
pub proof fn lemma_truncate_keeps_span(rows: Seq<Seq<bool>>, l: int, n: nat)
    requires
        rows_of(rows, n),
        0 <= l <= rows.len(),
        forall|m: int, i: int| l <= m < rows.len() && 0 <= i < n ==> !#[trigger] rows[m][i],
    ensures
        rows_of(rows.take(l), n),
        same_span(rows.take(l), rows, n),
{
    let after = rows.take(l);
    assert(rows_of(after, n)) by {
        assert forall|k: int| 0 <= k < after.len() implies (#[trigger] after[k]).len() == n by {
            assert(rows[k].len() == n);
        }
    }
    assert forall|k: int| 0 <= k < after.len() implies in_span(rows, #[trigger] after[k], n) by {
        lemma_row_in_span(rows, k, n);
    }
    assert forall|k: int| 0 <= k < rows.len() implies in_span(after, #[trigger] rows[k], n) by {
        if k < l {
            lemma_row_in_span(after, k, n);
        } else {
            lemma_zero_in_span(after, n);
            assert(rows[k].len() == n);
            assert(rows[k] =~= zero_vector(n));
        }
    }
    lemma_same_span(after, rows, n);
}

/// One step of the elimination: the row `l`, which has its highest one at
/// `i`, was added to every other row with a one at `i`. With that, `i` is
/// one more pivot and the bits from `i` up are done.
proof fn lemma_elimination_step(
    before: Seq<Seq<bool>>,
    after: Seq<Seq<bool>>,
    pivots: Seq<usize>,
    l: int,
    i: usize,
    n: nat,
)
    requires
        rows_of(before, n),
        eliminated(before, pivots, l, i + 1),
        l < before.len(),
        i < n,
        before[l][i as int],
        cleared(before, after, 0, before.len() as int, l, before[l], i as int),
    ensures
        eliminated(after, pivots.push(i), l + 1, i as int),
{
    let v = before[l];
    let more = pivots.push(i);
    assert(v.len() == n);
    assert forall|k: int| 0 <= k < l + 1 implies leads(#[trigger] after[k], more[k] as int)
        && more[k] >= i by {
        assert(before[k].len() == n);
        if k < l {
            assert(leads(before[k], pivots[k] as int));
            assert forall|x: int| pivots[k] <= x < n implies after[k][x] == before[k][x] by {
                assert(!before[l][x]);
            }
        } else {
            assert forall|x: int| i < x < n implies !after[k][x] by {
                assert(!before[l][x]);
            }
        }
    }
    assert forall|k: int, m: int|
        0 <= k < l + 1 && 0 <= m < after.len() && k != m implies !(#[trigger] after[m])[(
    #[trigger] more[k]) as int] by {
        assert(before[m].len() == n);
        if k < l {
            assert(!before[m][pivots[k] as int]);
            assert(!before[l][pivots[k] as int]);
            assert(leads(before[k], pivots[k] as int));
        }
    }
    assert forall|k: int, m: int| 0 <= k < m < l + 1 implies more[k] > more[m] by {
        if m < l {
            assert(pivots[k] > pivots[m]);
        } else {
            assert(leads(before[k], pivots[k] as int) && pivots[k] >= i + 1);
        }
    }
    assert forall|m: int, x: int|
        l + 1 <= m < after.len() && i <= x < after[m].len() implies !#[trigger] after[m][x] by {
        assert(before[m].len() == n);
        if x > i {
            assert(!before[m][x]);
            assert(!before[l][x]);
        }
    }
}

/// Exchanging two rows that are not yet pivots changes nothing in how far
/// the elimination has come.
proof fn lemma_swap_keeps_eliminated(
    rows: Seq<Seq<bool>>,
    pivots: Seq<usize>,
    l: int,
    b: int,
    j: int,
    n: nat,
)
    requires
        rows_of(rows, n),
        eliminated(rows, pivots, l, b),
        l <= j < rows.len(),
    ensures
        eliminated(rows.update(l, rows[j]).update(j, rows[l]), pivots, l, b),
{
    let after = rows.update(l, rows[j]).update(j, rows[l]);
    assert forall|k: int| 0 <= k < l implies leads(#[trigger] after[k], pivots[k] as int)
        && pivots[k] >= b by {
        assert(leads(rows[k], pivots[k] as int));
    }
    assert forall|k: int, m: int| 0 <= k < l && 0 <= m < after.len() && k != m implies !(
    #[trigger] after[m])[(#[trigger] pivots[k]) as int] by {
        assert(!rows[m][pivots[k] as int]);
        assert(!rows[l][pivots[k] as int]);
        assert(!rows[j][pivots[k] as int]);
    }
    assert forall|m: int, x: int|
        l <= m < after.len() && b <= x < after[m].len() implies !#[trigger] after[m][x] by {
        assert(rows[m].len() == n && rows[l].len() == n && rows[j].len() == n);
        assert(!rows[m][x]);
        assert(!rows[l][x]);
        assert(!rows[j][x]);
    }
}

/// A vector of the span of a reduced basis is the sum of the rows at whose
/// pivots it has a one. So one with a zero at every pivot is the zero
/// vector.
pub proof fn lemma_zero_at_pivots(rows: Seq<Seq<bool>>, pivots: Seq<usize>, v: Seq<bool>, n: nat)
    requires
        rows_of(rows, n),
        reduced(rows, pivots),
        in_span(rows, v, n),
        forall|k: int| 0 <= k < rows.len() ==> !v[#[trigger] pivots[k] as int],
    ensures
        v == zero_vector(n),
{
    let pick = choose|pick: Seq<bool>|
        pick.len() == rows.len() && #[trigger] combination(rows, pick, n) == v;
    assert forall|k: int| 0 <= k < pick.len() implies !pick[k] by {
        let j = pivots[k] as int;
        assert(leads(rows[k], j));
        assert(rows[k].len() == n);
        assert forall|m: int| 0 <= m < rows.len() && m != k implies !(#[trigger] rows[m])[j] by {
            assert(!rows[m][pivots[k] as int]);
        }
        lemma_parity_of_own_column(rows, pick, k, j);
        lemma_combination_bit(rows, pick, n, j);
    }
    lemma_combination_of_none(rows, pick, n);
}

/// `v` is at most `r` where the bits are read as a binary number, the
/// highest dimension first.
pub open spec fn at_most_as_number(v: Seq<bool>, r: Seq<bool>) -> bool {
    v == r || exists|j: int|
        0 <= j < r.len() && #[trigger] r[j] && !v[j] && forall|x: int|
            j < x < r.len() ==> v[x] == r[x]
}

/// Among some bits of which one is a one, there is a first one.
proof fn lemma_first_chosen(pick: Seq<bool>, upto: int) -> (first: int)
    requires
        0 <= upto < pick.len(),
        pick[upto],
    ensures
        0 <= first <= upto,
        pick[first],
        forall|m: int| 0 <= m < first ==> !pick[m],
    decreases upto,
{
    if exists|m: int| 0 <= m < upto && pick[m] {
        let m = choose|m: int| 0 <= m < upto && pick[m];
        lemma_first_chosen(pick, m)
    } else {
        upto
    }
}

/// A vector of the span of a reduced basis other than the zero vector has
/// its highest one at a pivot.
pub proof fn lemma_highest_is_pivot(
    rows: Seq<Seq<bool>>,
    pivots: Seq<usize>,
    d: Seq<bool>,
    n: nat,
) -> (k: int)
    requires
        rows_of(rows, n),
        reduced(rows, pivots),
        in_span(rows, d, n),
        d != zero_vector(n),
    ensures
        0 <= k < rows.len(),
        leads(d, pivots[k] as int),
{
    let pick = choose|pick: Seq<bool>|
        pick.len() == rows.len() && #[trigger] combination(rows, pick, n) == d;
    if forall|m: int| 0 <= m < pick.len() ==> !pick[m] {
        lemma_combination_of_none(rows, pick, n);
    }
    let some = choose|m: int| 0 <= m < pick.len() && pick[m];
    let k = lemma_first_chosen(pick, some);
    let j = pivots[k] as int;
    lemma_combination_len(rows, pick, n);
    assert(leads(rows[k], j));
    assert(rows[k].len() == n);
    assert forall|m: int| 0 <= m < rows.len() && m != k implies !(#[trigger] rows[m])[j] by {
        assert(!rows[m][pivots[k] as int]);
    }
    lemma_parity_of_own_column(rows, pick, k, j);
    lemma_combination_bit(rows, pick, n, j);
    assert forall|x: int| j < x < d.len() implies !d[x] by {
        assert forall|m: int| 0 <= m < rows.len() && pick[m] implies !(#[trigger] rows[m])[x] by {
            assert(leads(rows[m], pivots[m] as int));
            assert(rows[m].len() == n);
            if m > k {
                assert(pivots[k] > pivots[m]);
            }
        }
        lemma_parity_without_chosen_ones(rows, pick, x);
        lemma_combination_bit(rows, pick, n, x);
    }
    k
}

/// In the span of a reduced basis, the vector with a one at every pivot is
/// the greatest as a number.
pub proof fn lemma_ones_at_pivots_is_greatest(
    rows: Seq<Seq<bool>>,
    pivots: Seq<usize>,
    r: Seq<bool>,
    v: Seq<bool>,
    n: nat,
)
    requires
        rows_of(rows, n),
        reduced(rows, pivots),
        in_span(rows, r, n),
        in_span(rows, v, n),
        forall|k: int| 0 <= k < rows.len() ==> r[#[trigger] pivots[k] as int],
    ensures
        at_most_as_number(v, r),
{
    let some = choose|pick: Seq<bool>|
        pick.len() == rows.len() && #[trigger] combination(rows, pick, n) == v;
    lemma_combination_len(rows, some, n);
    let other = choose|pick: Seq<bool>|
        pick.len() == rows.len() && #[trigger] combination(rows, pick, n) == r;
    lemma_combination_len(rows, other, n);
    let d = xor_vector(v, r);
    lemma_span_closed(rows, v, r, n);
    if d == zero_vector(n) {
        assert forall|x: int| 0 <= x < n implies v[x] == r[x] by {
            assert(d[x] == zero_vector(n)[x]);
        }
        lemma_vectors_equal(v, r, n);
    } else {
        let k = lemma_highest_is_pivot(rows, pivots, d, n);
        let j = pivots[k] as int;
        assert(r[j]);
        assert(d[j]);
        assert forall|x: int| j < x < r.len() implies v[x] == r[x] by {
            assert(!d[x]);
        }
    }
}

/// None of the rows `from..to` has a one at the column `x`.
pub open spec fn column_clear(rows: Seq<Seq<bool>>, from: int, to: int, x: int) -> bool {
    forall|j: int| from <= j < to ==> !(#[trigger] rows[j])[x]
}

/// Putting a vector into a reduced basis at the place of its highest one,
/// after it was added to the rows before it that have a one there, gives a
/// reduced basis.
proof fn lemma_place_reduced(
    before: Seq<Seq<bool>>,
    after: Seq<Seq<bool>>,
    pivots: Seq<usize>,
    i: int,
    v: Seq<bool>,
    h: usize,
    n: nat,
)
    requires
        rows_of(before, n),
        reduced(before, pivots),
        0 <= i <= before.len(),
        v.len() == n,
        leads(v, h as int),
        forall|k: int| 0 <= k < before.len() ==> !v[#[trigger] pivots[k] as int],
        forall|k: int| 0 <= k < i ==> #[trigger] pivots[k] > h,
        forall|k: int| i <= k < before.len() ==> #[trigger] pivots[k] < h,
        cleared(before, after, 0, i, before.len() as int, v, h as int),
    ensures
        reduced(after.insert(i, v), pivots.insert(i, h)),
{
    let rows = after.insert(i, v);
    let more = pivots.insert(i, h);
    assert forall|k: int| 0 <= k < rows.len() implies leads(#[trigger] rows[k], more[k] as int) by {
        if k < i {
            assert(leads(before[k], pivots[k] as int));
            assert(before[k].len() == n);
            assert(pivots[k] > h);
        } else if k > i {
            assert(leads(before[k - 1], pivots[k - 1] as int));
            assert(after[k - 1] == before[k - 1]);
        }
    }
    assert forall|k: int, m: int|
        0 <= k < rows.len() && 0 <= m < rows.len() && k != m implies !(#[trigger] rows[m])[(
    #[trigger] more[k]) as int] by {
        let from = if m < i {
            m
        } else {
            m - 1
        };
        let of = if k < i {
            k
        } else {
            k - 1
        };
        if k == i {
            if m < i {
                assert(before[m].len() == n);
            } else {
                assert(after[from] == before[from]);
                assert(leads(before[from], pivots[from] as int));
                assert(pivots[from] < h);
                assert(before[from].len() == n);
            }
        } else {
            assert(!v[pivots[of] as int]);
            assert(leads(before[of], pivots[of] as int));
            assert(before[of].len() == n);
            if m != i {
                assert(!before[from][pivots[of] as int]);
                assert(before[from].len() == n);
            }
        }
    }
    assert forall|k: int, m: int| 0 <= k < m < rows.len() implies more[k] > more[m] by {
        if k < i && m > i {
            assert(pivots[k] > h);
            assert(pivots[m - 1] < h);
        } else if k < i && m < i {
            assert(pivots[k] > pivots[m]);
        } else if k > i {
            assert(pivots[k - 1] > pivots[m - 1]);
        } else if k == i {
            assert(pivots[m - 1] < h);
        } else {
            assert(pivots[k] > h);
        }
    }
}

/// Exchanges two rows, by `swap` of std's slices: afterwards each of the
/// two positions holds what the other held, and the rest is as before.
#[verifier::external_body]
fn swap_rows(rows: &mut Vec<ZeroOneLinearEquation>, a: usize, b: usize)
    requires
        a < old(rows)@.len(),
        b < old(rows)@.len(),
    ensures
        final(rows)@ == old(rows)@.update(a as int, old(rows)@[b as int]).update(
            b as int,
            old(rows)@[a as int],
        ),
{
    rows.swap(a, b);
}

/// A system of linear equations over the field with two elements, and,
/// once computed, a basis of it in reduced form.
pub struct XorLinearEquationSystem {
    equations: Vec<ZeroOneLinearEquation>,
    equation_size: usize,
    highest_one_bit: Vec<usize>,
}

impl XorLinearEquationSystem {
    /// The equations, each as its bits.
    pub closed spec fn rows(&self) -> Seq<Seq<bool>> {
        self.equations@.map_values(|e: ZeroOneLinearEquation| e@)
    }

    /// The pivots recorded for the equations of a basis.
    pub closed spec fn pivots(&self) -> Seq<usize> {
        self.highest_one_bit@
    }

    /// The number of dimensions of every equation.
    pub closed spec fn dimensions(&self) -> nat {
        self.equation_size as nat
    }

    /// The representation invariant: every equation is well formed and has
    /// the dimensions of the system.
    pub closed spec fn wf(&self) -> bool {
        &&& self.equation_size + 127 <= usize::MAX
        &&& forall|k: int|
            0 <= k < self.equations@.len() ==> (#[trigger] self.equations@[k]).wf()
                && self.equations@[k]@.len() == self.equation_size
    }

    /// The equations are a basis in reduced form with the pivots recorded.
    pub open spec fn is_basis(&self) -> bool {
        reduced(self.rows(), self.pivots())
    }

    /// In a well-formed system every row has the dimensions of the system.
    pub proof fn lemma_rows_of(&self)
        requires
            self.wf(),
        ensures
            rows_of(self.rows(), self.dimensions()),
    {
        assert forall|k: int| 0 <= k < self.rows().len() implies (#[trigger] self.rows()[k]).len()
            == self.dimensions() by {
            assert(self.equations@[k].wf());
        }
    }

    /// Creates a system of `equation_num` equations of `equation_size`
    /// dimensions with all bits zero, and no pivots.
    pub fn new(equation_num: usize, equation_size: usize) -> (r: Self)
        requires
            equation_size + 127 <= usize::MAX,
        ensures
            r.wf(),
            r.dimensions() == equation_size,
            r.pivots().len() == 0,
            r.rows() == Seq::new(equation_num as nat, |k: int| zero_vector(equation_size as nat)),
    {
        let mut equations: Vec<ZeroOneLinearEquation> = Vec::new();
        let mut k: usize = 0;
        while k < equation_num
            invariant
                k <= equation_num,
                equation_size + 127 <= usize::MAX,
                equations@.len() == k,
                forall|m: int|
                    0 <= m < k ==> (#[trigger] equations@[m]).wf() && equations@[m]@ == zero_vector(
                        equation_size as nat,
                    ),
            decreases equation_num - k,
        {
            equations.push(ZeroOneLinearEquation::new(equation_size));
            k += 1;
        }
        let r = XorLinearEquationSystem { equations, equation_size, highest_one_bit: Vec::new() };
        assert(r.rows() =~= Seq::new(
            equation_num as nat,
            |k: int| zero_vector(equation_size as nat),
        ));
        r
    }

    /// Creates an equation of the dimensions of the system with all bits
    /// zero.
    pub fn new_equation(&mut self) -> (r: ZeroOneLinearEquation)
        requires
            old(self).wf(),
        ensures
            *final(self) == *old(self),
            r.wf(),
            r@ == zero_vector(old(self).dimensions()),
    {
        ZeroOneLinearEquation::new(self.equation_size)
    }

    /// Sets the bit of dimension `j` of equation `i` to 1.
    pub fn set_i_j(&mut self, i: usize, j: usize)
        requires
            old(self).wf(),
            i < old(self).rows().len(),
            j < old(self).dimensions(),
        ensures
            final(self).wf(),
            final(self).dimensions() == old(self).dimensions(),
            final(self).pivots() == old(self).pivots(),
            final(self).rows() == old(self).rows().update(
                i as int,
                old(self).rows()[i as int].update(j as int, true),
            ),
    {
        self.equations[i].set_i(j);
        assert(self.rows() =~= old(self).rows().update(
            i as int,
            old(self).rows()[i as int].update(j as int, true),
        ));
    }

    /// Sets the bit of dimension `j` of equation `i` to 0.
    pub fn unset_i_j(&mut self, i: usize, j: usize)
        requires
            old(self).wf(),
            i < old(self).rows().len(),
            j < old(self).dimensions(),
        ensures
            final(self).wf(),
            final(self).dimensions() == old(self).dimensions(),
            final(self).pivots() == old(self).pivots(),
            final(self).rows() == old(self).rows().update(
                i as int,
                old(self).rows()[i as int].update(j as int, false),
            ),
    {
        self.equations[i].unset_i(j);
        assert(self.rows() =~= old(self).rows().update(
            i as int,
            old(self).rows()[i as int].update(j as int, false),
        ));
    }

    /// Inverts the bit of dimension `j` of equation `i`.
    pub fn flip_i_j(&mut self, i: usize, j: usize)
        requires
            old(self).wf(),
            i < old(self).rows().len(),
            j < old(self).dimensions(),
        ensures
            final(self).wf(),
            final(self).dimensions() == old(self).dimensions(),
            final(self).pivots() == old(self).pivots(),
            final(self).rows() == old(self).rows().update(
                i as int,
                old(self).rows()[i as int].update(j as int, !old(self).rows()[i as int][j as int]),
            ),
    {
        self.equations[i].flip_i(j);
        assert(self.rows() =~= old(self).rows().update(
            i as int,
            old(self).rows()[i as int].update(j as int, !old(self).rows()[i as int][j as int]),
        ));
    }

    /// Returns the number of bits of equation `i` that are 1.
    pub fn count_ones_i(&self, i: usize) -> (r: usize)
        requires
            self.wf(),
            i < self.rows().len(),
        ensures
            r == count_true(self.rows()[i as int]),
            r <= self.dimensions(),
    {
        self.equations[i].count_ones()
    }

    /// Returns the number of bits of equation `i` that are 0.
    pub fn count_zeros_i(&self, i: usize) -> (r: usize)
        requires
            self.wf(),
            i < self.rows().len(),
        ensures
            r == self.dimensions() - count_true(self.rows()[i as int]),
    {
        self.equation_size - self.count_ones_i(i)
    }

    /// Returns whether all bits of equation `i` are 1.
    pub fn is_all_ones_i(&self, i: usize) -> (r: bool)
        requires
            self.wf(),
            i < self.rows().len(),
        ensures
            r == forall|j: int| 0 <= j < self.dimensions() ==> self.rows()[i as int][j],
    {
        proof {
            lemma_count_true_bounds(self.rows()[i as int]);
        }
        self.count_zeros_i(i) == 0
    }

    /// Returns whether all bits of equation `i` are 0.
    pub fn is_all_zeros_i(&self, i: usize) -> (r: bool)
        requires
            self.wf(),
            i < self.rows().len(),
        ensures
            r == forall|j: int| 0 <= j < self.dimensions() ==> !self.rows()[i as int][j],
    {
        proof {
            lemma_count_true_bounds(self.rows()[i as int]);
        }
        self.count_ones_i(i) == 0
    }

    /// Returns the bit of dimension `j` of equation `i`.
    pub fn get_i_j(&self, i: usize, j: usize) -> (r: bool)
        requires
            self.wf(),
            i < self.rows().len(),
            j < self.dimensions(),
        ensures
            r == self.rows()[i as int][j as int],
    {
        self.equations[i].get_i(j)
    }

    /// Returns equation `i`.
    pub fn get_i(&self, i: usize) -> (r: &ZeroOneLinearEquation)
        requires
            self.wf(),
            i < self.rows().len(),
        ensures
            r.wf(),
            r@ == self.rows()[i as int],
    {
        &self.equations[i]
    }

    /// Returns the pivot recorded for equation `i`.
    pub fn highest_one_bit_i(&self, i: usize) -> (r: usize)
        requires
            i < self.pivots().len(),
        ensures
            r == self.pivots()[i as int],
    {
        self.highest_one_bit[i]
    }

    /// Returns whether there are as many equations as dimensions: a basis
    /// of that many spans every vector.
    pub fn is_full_basis(&self) -> (r: bool)
        ensures
            r == (self.rows().len() == self.dimensions()),
    {
        self.equations.len() == self.equation_size
    }

    /// Returns the number of equations, which for a basis is its size.
    pub fn count_basis(&self) -> (r: usize)
        ensures
            r == self.rows().len(),
    {
        self.equations.len()
    }

    /// Returns the number of dimensions.
    pub fn equation_size(&self) -> (r: usize)
        ensures
            r == self.dimensions(),
    {
        self.equation_size
    }

    /// Adds `v` to each of the equations `from..to`, but for the equation
    /// `skip`, that has a one at `bit`.
    fn add_where_set(
        &mut self,
        from: usize,
        to: usize,
        skip: usize,
        v: &ZeroOneLinearEquation,
        bit: usize,
    )
        requires
            old(self).wf(),
            v.wf(),
            v@.len() == old(self).dimensions(),
            from <= to <= old(self).rows().len(),
            bit < old(self).dimensions(),
        ensures
            final(self).wf(),
            final(self).dimensions() == old(self).dimensions(),
            final(self).pivots() == old(self).pivots(),
            cleared(
                old(self).rows(),
                final(self).rows(),
                from as int,
                to as int,
                skip as int,
                v@,
                bit as int,
            ),
    {
        let mut k: usize = from;
        while k < to
            invariant
                self.wf(),
                v.wf(),
                v@.len() == self.equation_size,
                self.equation_size == old(self).equation_size,
                self.highest_one_bit == old(self).highest_one_bit,
                self.equations@.len() == old(self).equations@.len(),
                bit < self.equation_size,
                from <= k <= to <= self.equations@.len(),
                cleared(
                    old(self).rows(),
                    self.rows(),
                    from as int,
                    k as int,
                    skip as int,
                    v@,
                    bit as int,
                ),
            decreases to - k,
        {
            let ghost before = self.rows();
            let ghost held = self.equations@;
            let ghost origin = old(self).rows();
            assert(before[k as int] == origin[k as int]);
            assert(before[k as int] == held[k as int]@);
            if k != skip && self.equations[k].get_i(bit) {
                self.equations[k].xor(v);
                proof {
                    assert(self.equations@[k as int]@ =~= xor_vector(before[k as int], v@));
                    assert forall|m: int| 0 <= m < held.len() && m != k implies self.equations@[m]
                        == held[m] by {}
                }
            }
            proof {
                let now = self.rows();
                assert forall|m: int| 0 <= m < origin.len() implies #[trigger] now[m] == if from
                    <= m < k + 1 && m != skip && origin[m][bit as int] {
                    xor_vector(origin[m], v@)
                } else {
                    origin[m]
                } by {
                    assert(now[m] == self.equations@[m]@);
                    if m != k {
                        assert(self.equations@[m] == held[m]);
                        assert(before[m] == held[m]@);
                    }
                }
            }
            k += 1;
        }
    }

    /// Computes a basis of the equations in reduced form by elimination,
    /// from the highest dimension down, and records its pivots. The basis
    /// spans what the equations spanned.
    pub fn compute_basis(&mut self)
        requires
            old(self).wf(),
            old(self).pivots().len() == 0,
        ensures
            final(self).wf(),
            final(self).dimensions() == old(self).dimensions(),
            final(self).is_basis(),
            same_span(final(self).rows(), old(self).rows(), old(self).dimensions()),
    {
        let n = self.equations.len();
        let ghost dims = self.dimensions();
        let ghost start = self.rows();
        let mut l: usize = 0;
        let mut b: usize = self.equation_size;
        proof {
            self.lemma_rows_of();
        }
        while b > 0
            invariant
                self.wf(),
                self.dimensions() == dims,
                self.equation_size == dims,
                self.equations@.len() == n,
                b <= self.equation_size,
                l <= n,
                rows_of(self.rows(), dims),
                rows_of(start, dims),
                same_span(self.rows(), start, dims),
                eliminated(self.rows(), self.pivots(), l as int, b as int),
            decreases b,
        {
            b -= 1;
            let i = b;
            let mut j: usize = l;
            while j < n && !self.equations[j].get_i(i)
                invariant
                    self.wf(),
                    self.equations@.len() == n,
                    i < self.equation_size,
                    l <= j <= n,
                    forall|m: int| l <= m < j ==> !(#[trigger] self.rows()[m])[i as int],
                decreases n - j,
            {
                j += 1;
            }
            if j < n {
                let ghost found = self.rows();
                let ghost pivots = self.pivots();
                self.highest_one_bit.push(i);
                swap_rows(&mut self.equations, l, j);
                let ghost swapped = self.rows();
                proof {
                    assert(swapped =~= found.update(l as int, found[j as int]).update(
                        j as int,
                        found[l as int],
                    ));
                    lemma_swap_keeps_span(found, l as int, j as int, dims);
                    lemma_swap_keeps_eliminated(found, pivots, l as int, i + 1, j as int, dims);
                    assert(self.wf());
                }
                let pivot_row = self.equations[l].clone();
                self.add_where_set(0, n, l, &pivot_row, i);
                proof {
                    lemma_cleared_keeps_span(
                        swapped,
                        self.rows(),
                        0,
                        n as int,
                        l as int,
                        i as int,
                        dims,
                    );
                    lemma_elimination_step(swapped, self.rows(), pivots, l as int, i, dims);
                }
                l += 1;
            } else {
                proof {
                    assert forall|m: int, x: int|
                        l <= m < self.rows().len() && i <= x < self.rows()[m].len() implies
                        !#[trigger] self.rows()[m][x] by {
                        if x == i {
                            assert(!self.rows()[m][i as int]);
                        }
                    }
                }
            }
        }
        let ghost full = self.rows();
        self.equations.truncate(l);
        proof {
            assert(self.rows() =~= full.take(l as int));
            assert forall|m: int, x: int|
                l <= m < full.len() && 0 <= x < dims implies !#[trigger] full[m][x] by {
                assert(full[m].len() == dims);
            }
            lemma_truncate_keeps_span(full, l as int, dims);
            let rows = self.rows();
            let pivots = self.pivots();
            assert forall|k: int|
                0 <= k < rows.len() implies leads(#[trigger] rows[k], pivots[k] as int) by {
                assert(leads(full[k], pivots[k] as int));
            }
            assert forall|k: int, m: int|
                0 <= k < rows.len() && 0 <= m < rows.len() && k != m implies !(#[trigger] rows[m])[(
            #[trigger] pivots[k]) as int] by {
                assert(!full[m][pivots[k] as int]);
            }
        }
    }

    /// Returns whether `equation` is in the span of the basis: whether it
    /// is the sum of some of its equations.
    pub fn can_represent(&self, equation: ZeroOneLinearEquation) -> (r: bool)
        requires
            self.wf(),
            self.is_basis(),
            equation.wf(),
            equation@.len() == self.dimensions(),
        ensures
            r == in_span(self.rows(), equation@, self.dimensions()),
    {
        let ghost dims = self.dimensions();
        let ghost rows = self.rows();
        let ghost given = equation@;
        let mut equation = equation;
        proof {
            self.lemma_rows_of();
        }
        let mut i: usize = 0;
        while i < self.equations.len()
            invariant
                self.wf(),
                self.is_basis(),
                rows == self.rows(),
                dims == self.dimensions(),
                rows_of(rows, dims),
                equation.wf(),
                equation@.len() == dims,
                i <= self.equations@.len(),
                in_span(rows, equation@, dims) == in_span(rows, given, dims),
                forall|k: int| 0 <= k < i ==> !equation@[#[trigger] self.pivots()[k] as int],
            decreases self.equations@.len() - i,
        {
            let ghost before = equation@;
            let pivot = self.highest_one_bit[i];
            proof {
                assert(leads(rows[i as int], pivot as int));
                assert(rows[i as int].len() == dims);
            }
            if equation.get_i(pivot) {
                equation.xor(&self.equations[i]);
                proof {
                    assert(equation@ =~= xor_vector(before, rows[i as int]));
                    lemma_row_in_span(rows, i as int, dims);
                    lemma_span_shift(rows, before, rows[i as int], dims);
                    assert forall|k: int|
                        0 <= k < i + 1 implies !equation@[#[trigger] self.pivots()[k] as int] by {
                        if k < i {
                            assert(!rows[i as int][self.pivots()[k] as int]);
                            assert(leads(rows[k], self.pivots()[k] as int));
                        }
                    }
                }
            }
            i += 1;
        }
        let highest = equation.highest_one_bit();
        proof {
            if highest.is_none() {
                assert(equation@ =~= zero_vector(dims));
                lemma_zero_in_span(rows, dims);
            } else if in_span(rows, equation@, dims) {
                lemma_zero_at_pivots(rows, self.pivots(), equation@, dims);
            }
        }
        highest.is_none()
    }

    /// Returns the vector of the span of the basis that is the greatest as
    /// a binary number, the highest dimension first.
    pub fn get_max(&self) -> (r: ZeroOneLinearEquation)
        requires
            self.wf(),
            self.is_basis(),
            self.rows().len() > 0,
        ensures
            r.wf(),
            in_span(self.rows(), r@, self.dimensions()),
            forall|v: Seq<bool>|
                #[trigger] in_span(self.rows(), v, self.dimensions()) ==> at_most_as_number(v, r@),
    {
        let ghost dims = self.dimensions();
        let ghost rows = self.rows();
        proof {
            self.lemma_rows_of();
            lemma_row_in_span(rows, 0, dims);
            assert(leads(rows[0], self.pivots()[0] as int));
        }
        let mut ans = self.equations[0].clone();
        let mut i: usize = 1;
        while i < self.equations.len()
            invariant
                self.wf(),
                self.is_basis(),
                rows == self.rows(),
                dims == self.dimensions(),
                rows_of(rows, dims),
                ans.wf(),
                ans@.len() == dims,
                1 <= i <= self.equations@.len(),
                in_span(rows, ans@, dims),
                forall|k: int| 0 <= k < i ==> ans@[#[trigger] self.pivots()[k] as int],
            decreases self.equations@.len() - i,
        {
            let ghost before = ans@;
            let pivot = self.highest_one_bit[i];
            proof {
                assert(leads(rows[i as int], pivot as int));
                assert(rows[i as int].len() == dims);
            }
            if !ans.get_i(pivot) {
                ans.xor(&self.equations[i]);
                proof {
                    assert(ans@ =~= xor_vector(before, rows[i as int]));
                    lemma_row_in_span(rows, i as int, dims);
                    lemma_span_closed(rows, before, rows[i as int], dims);
                    assert forall|k: int|
                        0 <= k < i + 1 implies ans@[#[trigger] self.pivots()[k] as int] by {
                        if k < i {
                            assert(!rows[i as int][self.pivots()[k] as int]);
                            assert(leads(rows[k], self.pivots()[k] as int));
                        }
                    }
                }
            }
            i += 1;
        }
        proof {
            assert forall|v: Seq<bool>| #[trigger] in_span(rows, v, dims) implies at_most_as_number(
                v,
                ans@,
            ) by {
                lemma_ones_at_pivots_is_greatest(rows, self.pivots(), ans@, v, dims);
            }
        }
        ans
    }

    /// Adds to `equation` each of the equations `from..to` at whose pivot
    /// it has a one, in turn.
    fn reduce_range(&self, equation: &mut ZeroOneLinearEquation, from: usize, to: usize)
        requires
            self.wf(),
            self.is_basis(),
            old(equation).wf(),
            old(equation)@.len() == self.dimensions(),
            from <= to <= self.rows().len(),
        ensures
            final(equation).wf(),
            final(equation)@.len() == self.dimensions(),
            in_span(self.rows(), xor_vector(final(equation)@, old(equation)@), self.dimensions()),
            forall|k: int| from <= k < to ==> !final(equation)@[#[trigger] self.pivots()[k] as int],
            forall|x: int|
                0 <= x < self.dimensions() && #[trigger] column_clear(
                    self.rows(),
                    from as int,
                    to as int,
                    x,
                ) ==> final(equation)@[x] == old(equation)@[x],
    {
        let ghost dims = self.dimensions();
        let ghost rows = self.rows();
        let ghost given = equation@;
        proof {
            self.lemma_rows_of();
            lemma_zero_in_span(rows, dims);
            assert(xor_vector(given, given) =~= zero_vector(dims));
        }
        let mut k: usize = from;
        while k < to
            invariant
                self.wf(),
                self.is_basis(),
                rows == self.rows(),
                dims == self.dimensions(),
                rows_of(rows, dims),
                equation.wf(),
                equation@.len() == dims,
                given.len() == dims,
                from <= k <= to <= self.equations@.len(),
                in_span(rows, xor_vector(equation@, given), dims),
                forall|m: int| from <= m < k ==> !equation@[#[trigger] self.pivots()[m] as int],
                forall|x: int|
                    0 <= x < dims && #[trigger] column_clear(rows, from as int, k as int, x)
                        ==> equation@[x] == given[x],
            decreases to - k,
        {
            let ghost before = equation@;
            let pivot = self.highest_one_bit[k];
            proof {
                assert(leads(rows[k as int], pivot as int));
                assert(rows[k as int].len() == dims);
            }
            if equation.get_i(pivot) {
                equation.xor(&self.equations[k]);
                proof {
                    assert(equation@ =~= xor_vector(before, rows[k as int]));
                    lemma_row_in_span(rows, k as int, dims);
                    lemma_span_closed(rows, xor_vector(before, given), rows[k as int], dims);
                    assert(xor_vector(xor_vector(before, given), rows[k as int]) =~= xor_vector(
                        equation@,
                        given,
                    ));
                    assert forall|m: int|
                        from <= m < k + 1 implies
                            !equation@[#[trigger] self.pivots()[m] as int] by {
                        if m < k {
                            assert(!rows[k as int][self.pivots()[m] as int]);
                            assert(leads(rows[m], self.pivots()[m] as int));
                        }
                    }
                }
            }
            proof {
                assert forall|x: int|
                    0 <= x < dims && #[trigger] column_clear(
                        rows,
                        from as int,
                        k + 1,
                        x,
                    ) implies equation@[x] == given[x] by {
                    assert(!rows[k as int][x]);
                    assert(column_clear(rows, from as int, k as int, x));
                }
            }
            k += 1;
        }
    }

    /// Puts `equation`, which is reduced against the basis and has its
    /// highest one at `h`, into the basis at position `i`, where the pivots
    /// pass `h`: the equations before it lose their one at `h`.
    fn place(&mut self, i: usize, equation: ZeroOneLinearEquation, h: usize)
        requires
            old(self).wf(),
            old(self).is_basis(),
            equation.wf(),
            equation@.len() == old(self).dimensions(),
            i <= old(self).rows().len(),
            leads(equation@, h as int),
            forall|k: int|
                0 <= k < old(self).rows().len() ==> !equation@[#[trigger] old(self).pivots()[k]
                    as int],
            forall|k: int| 0 <= k < i ==> #[trigger] old(self).pivots()[k] > h,
            forall|k: int| i <= k < old(self).rows().len() ==> #[trigger] old(self).pivots()[k] < h,
        ensures
            final(self).wf(),
            final(self).is_basis(),
            final(self).dimensions() == old(self).dimensions(),
            same_span(
                final(self).rows(),
                old(self).rows().push(equation@),
                old(self).dimensions(),
            ),
            final(self).rows().len() == old(self).rows().len() + 1,
    {
        let ghost dims = self.dimensions();
        let ghost before = self.rows();
        let ghost pivots = self.pivots();
        let ghost v = equation@;
        let n = self.equations.len();
        proof {
            self.lemma_rows_of();
        }
        self.add_where_set(0, i, n, &equation, h);
        let ghost after = self.rows();
        proof {
            self.lemma_rows_of();
            lemma_zero_in_span(before, dims);
            lemma_span_grows(before, v, zero_vector(dims), dims);
            assert(cleared(
                before.push(v),
                after.push(v),
                0,
                i as int,
                n as int,
                before.push(v)[n as int],
                h as int,
            ));
            lemma_cleared_keeps_span(
                before.push(v),
                after.push(v),
                0,
                i as int,
                n as int,
                h as int,
                dims,
            );
            lemma_span_of_insert(after, i as int, v, dims);
            lemma_place_reduced(before, after, pivots, i as int, v, h, dims);
        }
        self.equations.insert(i, equation);
        self.highest_one_bit.insert(i, h);
        proof {
            assert(self.rows() =~= after.insert(i as int, v));
        }
    }

    /// Puts `equation` into the basis. An equation in the span of the
    /// basis changes nothing and gives `false`. Any other is reduced against
    /// the basis and put in where its highest one belongs, the basis stays
    /// in reduced form, and the result is `true`.
    #[verifier::loop_isolation(false)]
    pub fn insert_basis(&mut self, equation: ZeroOneLinearEquation) -> (r: bool)
        requires
            old(self).wf(),
            old(self).is_basis(),
            equation.wf(),
            equation@.len() == old(self).dimensions(),
        ensures
            final(self).wf(),
            final(self).is_basis(),
            final(self).dimensions() == old(self).dimensions(),
            r == !in_span(old(self).rows(), equation@, old(self).dimensions()),
            same_span(
                final(self).rows(),
                old(self).rows().push(equation@),
                old(self).dimensions(),
            ),
            !r ==> final(self).rows() == old(self).rows() && final(self).pivots() == old(
                self,
            ).pivots(),
            r ==> final(self).rows().len() == old(self).rows().len() + 1,
    {
        let ghost dims = self.dimensions();
        let ghost rows = self.rows();
        let ghost pivots = self.pivots();
        let ghost given = equation@;
        let mut equation = equation;
        let n = self.equations.len();
        proof {
            self.lemma_rows_of();
            lemma_zero_in_span(rows, dims);
            assert(xor_vector(given, given) =~= zero_vector(dims));
        }
        let mut i: usize = 0;
        while i < n
            invariant
                self.wf(),
                self.is_basis(),
                *self == *old(self),
                rows == self.rows(),
                pivots == self.pivots(),
                dims == self.dimensions(),
                rows_of(rows, dims),
                n == rows.len(),
                equation.wf(),
                equation@.len() == dims,
                given.len() == dims,
                i <= n,
                in_span(rows, xor_vector(equation@, given), dims),
                forall|k: int| 0 <= k < i ==> !equation@[#[trigger] pivots[k] as int],
                forall|x: int| i > 0 && pivots[i - 1] <= x < dims ==> !equation@[x],
            decreases n - i,
        {
            let ghost before = equation@;
            self.reduce_range(&mut equation, i, i + 1);
            let ghost step = equation@;
            proof {
                lemma_span_closed(rows, xor_vector(step, before), xor_vector(before, given), dims);
                assert(xor_vector(xor_vector(step, before), xor_vector(before, given))
                    =~= xor_vector(step, given));
                assert(leads(rows[i as int], pivots[i as int] as int));
                assert(rows[i as int].len() == dims);
                assert forall|x: int| 0 <= x < dims && !rows[i as int][x] implies step[x]
                    == before[x] by {
                    assert(column_clear(rows, i as int, i + 1, x));
                }
                assert forall|k: int| 0 <= k < i + 1 implies !step[#[trigger] pivots[k] as int] by {
                    if k < i {
                        assert(!rows[i as int][pivots[k] as int]);
                        assert(leads(rows[k], pivots[k] as int));
                    }
                }
                assert forall|x: int| i > 0 && pivots[i - 1] <= x < dims implies !step[x] by {
                    assert(pivots[i - 1] > pivots[i as int]);
                }
            }
            match equation.highest_one_bit() {
                None => {
                    proof {
                        assert(step =~= zero_vector(dims));
                        assert(xor_vector(step, given) =~= given);
                        lemma_span_with_member(rows, given, dims);
                    }
                    return false;
                },
                Some(h) => {
                    if h > self.highest_one_bit[i] {
                        self.reduce_range(&mut equation, i, n);
                        let ghost last = equation@;
                        proof {
                            lemma_span_closed(
                                rows,
                                xor_vector(last, step),
                                xor_vector(step, given),
                                dims,
                            );
                            assert(xor_vector(xor_vector(last, step), xor_vector(step, given))
                                =~= xor_vector(last, given));
                            assert forall|x: int| 0 <= x < dims && (h <= x || exists|k: int|
                                0 <= k < i && pivots[k] == x) implies last[x] == step[x] by {
                                assert forall|j: int|
                                    i <= j < n implies !(#[trigger] rows[j])[x] by {
                                    assert(leads(rows[j], pivots[j] as int));
                                    assert(rows[j].len() == dims);
                                    if j > i {
                                        assert(pivots[i as int] > pivots[j]);
                                    }
                                    if x < h {
                                        let k = choose|k: int| 0 <= k < i && pivots[k] == x;
                                        assert(!rows[j][pivots[k] as int]);
                                    }
                                }
                                assert(column_clear(rows, i as int, n as int, x));
                            }
                            assert(leads(last, h as int));
                            assert forall|k: int|
                                0 <= k < n implies !last[#[trigger] pivots[k] as int] by {
                                if k < i {
                                    assert(leads(rows[k], pivots[k] as int));
                                }
                            }
                            assert forall|k: int| 0 <= k < i implies #[trigger] pivots[k] > h by {
                                assert(pivots[k] >= pivots[i - 1]);
                                assert(leads(rows[k], pivots[k] as int));
                                if pivots[k] <= h {
                                    assert(!step[h as int]);
                                }
                            }
                            assert forall|k: int| i <= k < n implies #[trigger] pivots[k] < h by {
                                if k > i {
                                    assert(pivots[i as int] > pivots[k]);
                                }
                            }
                            if in_span(rows, given, dims) {
                                lemma_span_closed(rows, xor_vector(last, given), given, dims);
                                lemma_xor_cancels(last, given);
                                lemma_zero_at_pivots(rows, pivots, last, dims);
                            }
                            lemma_span_with_shifted(rows, last, given, dims);
                        }
                        self.place(i, equation, h);
                        return true;
                    }
                    proof {
                        assert forall|x: int| pivots[i as int] <= x < dims implies !step[x] by {}
                    }
                },
            }
            i += 1;
        }
        let ghost last = equation@;
        match equation.highest_one_bit() {
            None => {
                proof {
                    assert(last =~= zero_vector(dims));
                    assert(xor_vector(last, given) =~= given);
                    lemma_span_with_member(rows, given, dims);
                }
                false
            },
            Some(h) => {
                proof {
                    assert forall|k: int| 0 <= k < n implies #[trigger] pivots[k] > h by {
                        assert(pivots[k] >= pivots[n - 1]);
                        assert(leads(rows[k], pivots[k] as int));
                        if pivots[k] <= h {
                            assert(!last[h as int]);
                        }
                    }
                    if in_span(rows, given, dims) {
                        lemma_span_closed(rows, xor_vector(last, given), given, dims);
                        lemma_xor_cancels(last, given);
                        lemma_zero_at_pivots(rows, pivots, last, dims);
                    }
                    lemma_span_with_shifted(rows, last, given, dims);
                }
                self.place(n, equation, h);
                true
            },
        }
    }
}

impl ZeroOneLinearEquation {
    /// The two equations have the same dimensions and the same words.
    pub closed spec fn same_bits(&self, other: &Self) -> bool {
        self.equation_size == other.equation_size && self.f@ == other.f@
    }

    /// The two equations have the same dimensions and as many words, as
    /// well-formed equations of the same dimensions have.
    pub closed spec fn comparable(&self, other: &Self) -> bool {
        self.equation_size == other.equation_size && self.f@.len() == other.f@.len()
    }

    /// Well-formed equations are comparable exactly where they have the
    /// same dimensions.
    pub proof fn lemma_comparable(&self, other: &Self)
        requires
            self.wf(),
            other.wf(),
        ensures
            self.comparable(other) <==> self@.len() == other@.len(),
    {
    }

    /// The two equations have the same dimensions, and this one is the
    /// smaller as a binary number with the highest dimension first.
    pub closed spec fn below(&self, other: &Self) -> bool {
        self.equation_size == other.equation_size && words_less(self.f@, other.f@, self.f@.len())
    }

    /// Well-formed equations have the same words exactly where they have
    /// the same bits.
    pub proof fn lemma_same_bits(&self, other: &Self)
        requires
            self.wf(),
            other.wf(),
        ensures
            self.same_bits(other) <==> self@ == other@,
    {
        if self@ == other@ {
            assert(self.equation_size == other.equation_size) by {
                assert(self@.len() == other@.len());
            }
            assert forall|w: int| 0 <= w < self.f@.len() implies self.f@[w] == other.f@[w] by {
                assert forall|x: u128| x < 128 implies word_bit(self.f@[w], x) == word_bit(
                    other.f@[w],
                    x,
                ) by {
                    let at = 128 * w + x;
                    assert(at / 128 == w && at % 128 == x);
                    if at < self.equation_size {
                        assert(self@[at] == other@[at]);
                    }
                }
                lemma_word_by_bits(self.f@[w], other.f@[w]);
            }
            assert(self.f@ =~= other.f@);
        }
        if self.same_bits(other) {
            assert(self@ =~= other@);
        }
    }

    /// Among well-formed equations of the same dimensions, one is below
    /// another exactly where it is another and, at the highest dimension in
    /// which the two differ, has the zero.
    pub proof fn lemma_below(&self, other: &Self)
        requires
            self.wf(),
            other.wf(),
            self@.len() == other@.len(),
        ensures
            self.below(other) <==> self@ != other@ && at_most_as_number(self@, other@),
    {
        let a = self.f@;
        let b = other.f@;
        let size = self.equation_size as int;
        if self.below(other) {
            let j = lemma_words_less_has_bit(a, b, a.len());
            assert(j < size);
            assert(other@[j] && !self@[j]);
            assert forall|x: int| j < x < other@.len() implies self@[x] == other@[x] by {
                assert(all_bits(a)[x] == all_bits(b)[x]);
            }
        }
        if self@ != other@ && at_most_as_number(self@, other@) {
            let j = choose|j: int|
                0 <= j < other@.len() && #[trigger] other@[j] && !self@[j] && forall|x: int|
                    j < x < other@.len() ==> self@[x] == other@[x];
            assert forall|x: int|
                j < x < 128 * a.len() implies all_bits(a)[x] == all_bits(b)[x] by {
                if x < size {
                    assert(self@[x] == other@[x]);
                }
            }
            assert(less_at(a, b, j));
            lemma_bit_makes_less(a, b, j);
        }
    }
}

impl PartialEq for ZeroOneLinearEquation {
    /// Whether the two equations have the same dimensions and the same
    /// words.
    fn eq(&self, other: &Self) -> (r: bool) {
        if self.equation_size != other.equation_size || self.f.len() != other.f.len() {
            return false;
        }
        let mut w: usize = 0;
        while w < self.f.len()
            invariant
                self.f@.len() == other.f@.len(),
                w <= self.f@.len(),
                forall|j: int| 0 <= j < w ==> self.f@[j] == other.f@[j],
            decreases self.f@.len() - w,
        {
            if self.f[w] != other.f[w] {
                return false;
            }
            w += 1;
        }
        assert(self.f@ =~= other.f@);
        true
    }
}

impl PartialEqSpecImpl for ZeroOneLinearEquation {
    open spec fn obeys_eq_spec() -> bool {
        true
    }

    open spec fn eq_spec(&self, other: &Self) -> bool {
        self.same_bits(other)
    }
}

impl PartialOrd for ZeroOneLinearEquation {
    /// Compares two equations of the same dimensions as binary numbers,
    /// the highest dimension first; equations of different dimensions do
    /// not compare.
    fn partial_cmp(&self, other: &Self) -> (r: Option<Ordering>) {
        if self.equation_size != other.equation_size || self.f.len() != other.f.len() {
            return None;
        }
        let mut w: usize = self.f.len();
        while w > 0
            invariant
                self.equation_size == other.equation_size,
                self.f@.len() == other.f@.len(),
                w <= self.f@.len(),
                forall|j: int| w <= j < self.f@.len() ==> self.f@[j] == other.f@[j],
                words_less(self.f@, other.f@, self.f@.len()) == words_less(
                    self.f@,
                    other.f@,
                    words_gone(w),
                ),
                words_less(other.f@, self.f@, self.f@.len()) == words_less(
                    other.f@,
                    self.f@,
                    words_gone(w),
                ),
            decreases w,
        {
            w -= 1;
            if self.f[w] > other.f[w] {
                return Some(Ordering::Greater);
            } else if self.f[w] < other.f[w] {
                return Some(Ordering::Less);
            }
        }
        assert(self.f@ =~= other.f@);
        Some(Ordering::Equal)
    }
}

impl PartialOrdSpecImpl for ZeroOneLinearEquation {
    open spec fn obeys_partial_cmp_spec() -> bool {
        true
    }

    open spec fn partial_cmp_spec(&self, other: &Self) -> Option<Ordering> {
        if !self.comparable(other) {
            None
        } else if self.same_bits(other) {
            Some(Ordering::Equal)
        } else if self.below(other) {
            Some(Ordering::Less)
        } else {
            Some(Ordering::Greater)
        }
    }
}

} // verus!
