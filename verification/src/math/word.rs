//! The bits of a 128-bit word as the digits of a binary number.
use vstd::arithmetic::div_mod::{
    lemma_div_denominator, lemma_fundamental_div_mod, lemma_mod_breakdown, lemma_small_mod,
};
use vstd::arithmetic::power2::{
    lemma2_to64, lemma_pow2_adds, lemma_pow2_pos, lemma_pow2_unfold, pow2,
};
use vstd::bits::lemma_u128_shr_is_div;
use vstd::prelude::*;

verus! {

/// The bit at position `k` of a word.
pub open spec fn word_bit(w: u128, k: u128) -> bool {
    (w >> k) & 1 == 1
}

/// Two to the 128 is one more than the greatest word.
pub proof fn lemma_pow2_128()
    ensures
        pow2(128) == 0x1_0000_0000_0000_0000_0000_0000_0000_0000nat,
{
    lemma2_to64();
    lemma_pow2_adds(64, 64);
    assert(0x1_0000_0000_0000_0000nat * 0x1_0000_0000_0000_0000nat
        == 0x1_0000_0000_0000_0000_0000_0000_0000_0000nat) by (nonlinear_arith);
}

/// The bit at position `k` is the digit of weight `2^k` of the word as a
/// binary number.
pub proof fn lemma_bit_is_digit(w: u128, k: nat)
    requires
        k < 128,
    ensures
        word_bit(w, k as u128) == ((w as nat / pow2(k)) % 2 == 1),
{
    let shifted = w >> (k as u128);
    lemma_u128_shr_is_div(w, k as u128);
    assert(shifted & 1 == shifted % 2) by (bit_vector);
}

/// Words that agree in the bits below `k` leave the same remainder modulo
/// `2^k`.
pub proof fn lemma_low_digits(a: u128, b: u128, k: nat)
    requires
        k <= 128,
        forall|j: u128| j < k ==> word_bit(a, j) == word_bit(b, j),
    ensures
        a as nat % pow2(k) == b as nat % pow2(k),
    decreases k,
{
    lemma_pow2_pos(k);
    if k == 0 {
        lemma2_to64();
    } else {
        let m = (k - 1) as nat;
        lemma_low_digits(a, b, m);
        lemma_pow2_pos(m);
        lemma_pow2_unfold(k);
        assert(pow2(k) == pow2(m) * 2) by (nonlinear_arith)
            requires
                pow2(k) == 2 * pow2(m),
        ;
        lemma_mod_breakdown(a as int, pow2(m) as int, 2);
        lemma_mod_breakdown(b as int, pow2(m) as int, 2);
        lemma_bit_is_digit(a, m);
        lemma_bit_is_digit(b, m);
        assert(word_bit(a, m as u128) == word_bit(b, m as u128));
    }
}

/// Words that agree in the bits from `k` up have the same quotient by
/// `2^k`.
pub proof fn lemma_high_digits(a: u128, b: u128, k: nat)
    requires
        k <= 128,
        forall|j: u128| k <= j < 128 ==> word_bit(a, j) == word_bit(b, j),
    ensures
        a as nat / pow2(k) == b as nat / pow2(k),
    decreases 128 - k,
{
    lemma_pow2_pos(k);
    if k == 128 {
        lemma_pow2_128();
        vstd::arithmetic::div_mod::lemma_basic_div(a as int, pow2(128) as int);
        vstd::arithmetic::div_mod::lemma_basic_div(b as int, pow2(128) as int);
    } else {
        lemma_high_digits(a, b, k + 1);
        lemma_pow2_unfold(k + 1);
        assert(pow2(k + 1) == pow2(k) * 2) by (nonlinear_arith)
            requires
                pow2(k + 1) == 2 * pow2(k),
        ;
        lemma_div_denominator(a as int, pow2(k) as int, 2);
        lemma_div_denominator(b as int, pow2(k) as int, 2);
        let qa = a as nat / pow2(k);
        let qb = b as nat / pow2(k);
        lemma_fundamental_div_mod(qa as int, 2);
        lemma_fundamental_div_mod(qb as int, 2);
        lemma_bit_is_digit(a, k);
        lemma_bit_is_digit(b, k);
        assert(word_bit(a, k as u128) == word_bit(b, k as u128));
    }
}

/// Words that agree in every bit are the same word.
pub proof fn lemma_word_by_bits(a: u128, b: u128)
    requires
        forall|j: u128| j < 128 ==> word_bit(a, j) == word_bit(b, j),
    ensures
        a == b,
{
    lemma_low_digits(a, b, 128);
    lemma_pow2_128();
    lemma_small_mod(a as nat, pow2(128));
    lemma_small_mod(b as nat, pow2(128));
}

/// Of two words that agree in the bits above `j`, the one with a zero at
/// `j` where the other has a one is the smaller.
pub proof fn lemma_word_order(a: u128, b: u128, j: nat)
    requires
        j < 128,
        forall|x: u128| j < x < 128 ==> word_bit(a, x) == word_bit(b, x),
        !word_bit(a, j as u128),
        word_bit(b, j as u128),
    ensures
        a < b,
{
    let unit = pow2(j);
    lemma_pow2_pos(j);
    lemma_high_digits(a, b, j + 1);
    lemma_pow2_unfold(j + 1);
    assert(pow2(j + 1) == unit * 2) by (nonlinear_arith)
        requires
            pow2(j + 1) == 2 * unit,
    ;
    lemma_bit_is_digit(a, j);
    lemma_bit_is_digit(b, j);
    lemma_mod_breakdown(a as int, unit as int, 2);
    lemma_mod_breakdown(b as int, unit as int, 2);
    lemma_fundamental_div_mod(a as int, pow2(j + 1) as int);
    lemma_fundamental_div_mod(b as int, pow2(j + 1) as int);
    let high = a as nat / pow2(j + 1);
    let la = a as nat % unit;
    let lb = b as nat % unit;
    assert(la < unit && lb < unit) by {
        vstd::arithmetic::div_mod::lemma_mod_bound(a as int, unit as int);
        vstd::arithmetic::div_mod::lemma_mod_bound(b as int, unit as int);
    }
    let da = (a as nat / unit) % 2;
    let db = (b as nat / unit) % 2;
    assert(da == 0 && db == 1);
    assert(a as nat % pow2(j + 1) == unit * da + la);
    assert(b as nat % pow2(j + 1) == unit * db + lb);
    assert(unit * 0 + la < unit * 1 + lb) by (nonlinear_arith)
        requires
            la < unit,
            lb >= 0,
    ;
}

/// Two different words have a highest bit in which they differ: at or
/// below `k`, where they agree above `k`.
pub proof fn lemma_highest_difference(a: u128, b: u128, k: nat) -> (j: nat)
    requires
        a != b,
        k < 128,
        forall|x: u128| k < x < 128 ==> word_bit(a, x) == word_bit(b, x),
    ensures
        j <= k,
        word_bit(a, j as u128) != word_bit(b, j as u128),
        forall|x: u128| j < x < 128 ==> word_bit(a, x) == word_bit(b, x),
    decreases k,
{
    if word_bit(a, k as u128) != word_bit(b, k as u128) {
        k
    } else if k == 0 {
        lemma_word_by_bits(a, b);
        0
    } else {
        lemma_highest_difference(a, b, (k - 1) as nat)
    }
}

} // verus!
