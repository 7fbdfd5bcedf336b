//! What it means to be prime, products of factors, and the facts about
//! divisors that trial division rests on.
use vstd::arithmetic::div_mod::{lemma_fundamental_div_mod, lemma_mod_multiples_basic};
use vstd::arithmetic::power::pow;
use vstd::arithmetic::power2::pow2;
use vstd::prelude::*;

verus! {

/// `n` is prime: at least 2, and divisible by nothing strictly between 1
/// and itself.
pub open spec fn is_prime(n: nat) -> bool {
    &&& n >= 2
    &&& forall|d: nat| 1 < d < n ==> #[trigger] (n % d) != 0
}

/// `n` is composite: it has a divisor strictly between 1 and itself.
pub open spec fn is_composite(n: nat) -> bool {
    exists|d: nat| 1 < d < n && #[trigger] (n % d) == 0
}

/// Nothing strictly between 1 and `bound` divides `n`.
pub open spec fn no_divisor_below(n: nat, bound: nat) -> bool {
    forall|d: nat| 1 < d < bound ==> #[trigger] (n % d) != 0
}

/// The product of a sequence of numbers; the empty product is 1.
pub open spec fn product(s: Seq<nat>) -> nat
    decreases s.len(),
{
    if s.len() == 0 {
        1
    } else {
        product(s.drop_last()) * s.last()
    }
}

/// The numbers in a sequence of 32-bit factors.
pub open spec fn factors32(s: Seq<u32>) -> Seq<nat> {
    s.map_values(|x: u32| x as nat)
}

/// The numbers in a sequence of 64-bit factors.
pub open spec fn factors64(s: Seq<u64>) -> Seq<nat> {
    s.map_values(|x: u64| x as nat)
}

/// Every number at least 2 is prime or composite, and never both.
pub proof fn lemma_prime_or_composite(n: nat)
    requires
        n >= 2,
    ensures
        is_prime(n) != is_composite(n),
{
    if !is_prime(n) {
        let d = choose|d: nat| 1 < d < n && #[trigger] (n % d) == 0;
        assert(1 < d < n && n % d == 0);
    }
}

/// One more factor multiplies the product by it.
pub proof fn lemma_product_push(s: Seq<nat>, x: nat)
    ensures
        product(s.push(x)) == product(s) * x,
{
    assert(s.push(x).drop_last() =~= s);
}

/// The product of two sequences put end to end is the product of their
/// products.
pub proof fn lemma_product_concat(a: Seq<nat>, b: Seq<nat>)
    ensures
        product(a + b) == product(a) * product(b),
    decreases b.len(),
{
    if b.len() == 0 {
        assert(a + b =~= a);
        assert(product(b) == 1);
        assert(product(a) * 1 == product(a)) by (nonlinear_arith);
    } else {
        let front = b.drop_last();
        assert((a + b).drop_last() =~= a + front);
        assert((a + b).last() == b.last());
        lemma_product_concat(a, front);
        assert(product(a + b) == product(a + front) * b.last());
        assert(product(b) == product(front) * b.last());
        assert((product(a) * product(front)) * b.last() == product(a) * (product(front)
            * b.last())) by (nonlinear_arith);
    }
}

/// Among factors that are all at least 1, none is larger than the product.
pub proof fn lemma_factor_at_most_product(s: Seq<nat>, i: int)
    requires
        0 <= i < s.len(),
        forall|j: int| 0 <= j < s.len() ==> #[trigger] s[j] >= 1,
    ensures
        s[i] <= product(s),
        product(s) >= 1,
    decreases s.len(),
{
    let front = s.drop_last();
    if front.len() == 0 {
        assert(product(front) == 1);
        assert(1 * s.last() == s.last()) by (nonlinear_arith);
    } else {
        lemma_factor_at_most_product(front, 0);
        if i < front.len() {
            lemma_factor_at_most_product(front, i);
        }
        assert(product(front) * s.last() >= product(front) && product(front) * s.last()
            >= s.last()) by (nonlinear_arith)
            requires
                product(front) >= 1,
                s.last() >= 1,
        ;
    }
}

/// A divisor of a divisor of `n` divides `n`.
pub proof fn lemma_divisor_of_divisor(n: nat, m: nat, d: nat)
    requires
        m > 0,
        d > 0,
        n % m == 0,
        m % d == 0,
    ensures
        n % d == 0,
{
    let a = n / m;
    let b = m / d;
    lemma_fundamental_div_mod(n as int, m as int);
    lemma_fundamental_div_mod(m as int, d as int);
    assert(n == (b * a) * d) by (nonlinear_arith)
        requires
            n == m * a,
            m == d * b,
    ;
    lemma_mod_multiples_basic((b * a) as int, d as int);
}

/// A divisor of the quotient `n / i`, where `i` divides `n`, divides `n`.
pub proof fn lemma_divisor_of_quotient(n: nat, i: nat, d: nat)
    requires
        i > 0,
        d > 0,
        n % i == 0,
        (n / i) % d == 0,
    ensures
        n % d == 0,
{
    let q = n / i;
    let c = q / d;
    lemma_fundamental_div_mod(n as int, i as int);
    lemma_fundamental_div_mod(q as int, d as int);
    assert(n == (c * i) * d) by (nonlinear_arith)
        requires
            n == i * q,
            q == d * c,
    ;
    lemma_mod_multiples_basic((c * i) as int, d as int);
}

/// Where `d` divides `n`, so does the quotient `n / d`, and the two
/// multiply to `n`.
pub proof fn lemma_cofactor(n: nat, d: nat)
    requires
        d > 0,
        n > 0,
        n % d == 0,
    ensures
        n / d > 0,
        (n / d) * d == n,
        n % (n / d) == 0,
{
    let q = n / d;
    lemma_fundamental_div_mod(n as int, d as int);
    assert(q > 0) by (nonlinear_arith)
        requires
            n == d * q,
            n > 0,
            d > 0,
    ;
    assert(n == d * q);
    assert(d * q == q * d) by (nonlinear_arith);
    lemma_mod_multiples_basic(d as int, q as int);
}

/// An odd number has no even divisor.
pub proof fn lemma_odd_has_no_even_divisor(n: nat, d: nat)
    requires
        n % 2 == 1,
        d > 0,
        d % 2 == 0,
    ensures
        n % d != 0,
{
    if n % d == 0 {
        lemma_divisor_of_divisor(n, d, 2);
    }
}

/// A number with no divisor up to its square root is prime.
pub proof fn lemma_prime_by_trial(n: nat, bound: nat)
    requires
        n >= 2,
        bound >= 2,
        bound * bound > n,
        no_divisor_below(n, bound),
    ensures
        is_prime(n),
{
    assert forall|d: nat| 1 < d < n implies #[trigger] (n % d) != 0 by {
        if n % d == 0 {
            if d >= bound {
                let q = n / d;
                lemma_cofactor(n, d);
                assert(q < bound) by (nonlinear_arith)
                    requires
                        q * d == n,
                        d >= bound,
                        bound * bound > n,
                        bound >= 2,
                ;
                assert(q > 1) by (nonlinear_arith)
                    requires
                        q * d == n,
                        d < n,
                        q > 0,
                ;
                assert(n % q == 0);
            }
        }
    }
}

/// The least divisor above 1 of a number is prime.
pub proof fn lemma_least_divisor_is_prime(n: nat, p: nat)
    requires
        p >= 2,
        n % p == 0,
        no_divisor_below(n, p),
    ensures
        is_prime(p),
{
    assert forall|d: nat| 1 < d < p implies #[trigger] (p % d) != 0 by {
        if p % d == 0 {
            lemma_divisor_of_divisor(n, p, d);
            assert(n % d == 0);
        }
    }
}

/// Two is prime.
pub proof fn lemma_two_is_prime()
    ensures
        is_prime(2),
{
}

/// The odd part of `m`: what is left when every factor 2 is taken out.
pub open spec fn odd_part(m: nat) -> nat
    decreases m,
{
    if m == 0 || m % 2 == 1 {
        m
    } else {
        odd_part(m / 2)
    }
}

/// How often 2 divides `m`.
pub open spec fn two_exponent(m: nat) -> nat
    decreases m,
{
    if m == 0 || m % 2 == 1 {
        0
    } else {
        1 + two_exponent(m / 2)
    }
}

/// `a` does not witness that `n` is composite: with `n - 1 = d * 2^s` and
/// `d` odd, `a^d` is 1 or `n - 1` modulo `n`, or one of the `s` values
/// `a^d, a^(2d), .., a^(2^(s-1) d)` is `n - 1` modulo `n`. Every base
/// passes this for a prime `n`; for a composite `n` at most a quarter of
/// the bases do.
pub open spec fn passes_round(n: nat, a: nat) -> bool {
    let d = odd_part((n - 1) as nat);
    let s = two_exponent((n - 1) as nat);
    let x = pow(a as int, d) % (n as int);
    ||| x == 1
    ||| x == n - 1
    ||| exists|i: nat| i < s && #[trigger] pow(a as int, d * pow2(i)) % (n as int) == n - 1
}

} // verus!
