//! Fermat's little theorem and what the Miller-Rabin test draws from it: a
//! prime passes every round, whatever the base.
use crate::math::primality::{
    is_prime, lemma_factor_at_most_product, odd_part, passes_round, product, two_exponent,
};
use vstd::arithmetic::div_mod::{
    lemma_fundamental_div_mod, lemma_mod_multiples_basic, lemma_mod_multiples_vanish,
    lemma_mul_mod_noop, lemma_mul_mod_noop_general, lemma_small_mod,
};
use vstd::arithmetic::power::{lemma_pow0, lemma_pow_adds, lemma_pow_positive, pow};
use vstd::arithmetic::power2::{lemma2_to64, lemma_pow2_unfold, pow2};
use vstd::prelude::*;

verus! {

/// A prime that divides `m * b`, with `m` below it and not 0, divides `b`.
proof fn lemma_euclid_below(p: nat, m: nat, b: nat)
    requires
        is_prime(p),
        0 < m < p,
        (m * b) % p == 0,
    ensures
        b % p == 0,
    decreases m,
{
    if m == 1 {
        assert(1 * b == b) by (nonlinear_arith);
    } else {
        let q = p / m;
        let r = p % m;
        lemma_fundamental_div_mod(p as int, m as int);
        assert(r != 0) by {
            if r == 0 {
                assert(p % m == 0);
            }
        }
        let k = (m * b) / p;
        lemma_fundamental_div_mod((m * b) as int, p as int);
        assert(r * b == (b - q * k) * p) by (nonlinear_arith)
            requires
                p == m * q + r,
                m * b == p * k,
        ;
        lemma_mod_multiples_basic(b - q * k, p as int);
        lemma_euclid_below(p, r, b);
    }
}

/// Euclid's lemma: a prime that divides a product divides a factor.
pub proof fn lemma_euclid(p: nat, a: nat, b: nat)
    requires
        is_prime(p),
        (a * b) % p == 0,
    ensures
        a % p == 0 || b % p == 0,
{
    let m = a % p;
    if m != 0 {
        let t = a / p;
        let k = (a * b) / p;
        lemma_fundamental_div_mod(a as int, p as int);
        lemma_fundamental_div_mod((a * b) as int, p as int);
        assert(m * b == (k - t * b) * p) by (nonlinear_arith)
            requires
                a == p * t + m,
                a * b == p * k,
        ;
        lemma_mod_multiples_basic(k - t * b, p as int);
        lemma_euclid_below(p, m, b);
    }
}

/// Taking one factor out divides the product by it.
proof fn lemma_product_remove(s: Seq<nat>, j: int)
    requires
        0 <= j < s.len(),
    ensures
        product(s) == product(s.remove(j)) * s[j],
    decreases s.len(),
{
    let front = s.drop_last();
    if j == s.len() - 1 {
        assert(s.remove(j) =~= front);
    } else {
        lemma_product_remove(front, j);
        assert(s.remove(j).drop_last() =~= front.remove(j));
        assert(s.remove(j).last() == s.last());
        assert((product(front.remove(j)) * s[j]) * s.last() == (product(front.remove(j))
            * s.last()) * s[j]) by (nonlinear_arith);
    }
}

/// Distinct values that all occur among equally many distinct values are
/// those values in another order, so their products agree.
proof fn lemma_rearranged_product(t: Seq<nat>, s: Seq<nat>)
    requires
        t.no_duplicates(),
        s.no_duplicates(),
        t.len() == s.len(),
        forall|i: int| 0 <= i < t.len() ==> s.contains(#[trigger] t[i]),
    ensures
        product(t) == product(s),
    decreases t.len(),
{
    if t.len() > 0 {
        let last = t.last();
        let head = t.drop_last();
        assert(s.contains(last));
        let j = choose|j: int| 0 <= j < s.len() && s[j] == last;
        let rest = s.remove(j);
        assert(rest.no_duplicates());
        assert forall|i: int| 0 <= i < head.len() implies rest.contains(#[trigger] head[i]) by {
            assert(head[i] == t[i]);
            assert(s.contains(t[i]));
            let k = choose|k: int| 0 <= k < s.len() && s[k] == t[i];
            assert(k != j);
            if k < j {
                assert(rest[k] == s[k]);
            } else {
                assert(rest[k - 1] == s[k]);
            }
        }
        lemma_rearranged_product(head, rest);
        lemma_product_remove(s, j);
    }
}

/// Two numbers with the same remainder differ by a multiple of the modulus.
proof fn lemma_same_remainder(x: nat, y: nat, p: nat)
    requires
        p > 0,
        x >= y,
        x % p == y % p,
    ensures
        ((x - y) as nat) % p == 0,
{
    lemma_fundamental_div_mod(x as int, p as int);
    lemma_fundamental_div_mod(y as int, p as int);
    let k = x / p - y / p;
    assert(x - y == k * p) by (nonlinear_arith)
        requires
            x == p * (x / p) + x % p,
            y == p * (y / p) + y % p,
            x % p == y % p,
            k == x / p - y / p,
    ;
    lemma_mod_multiples_basic(k as int, p as int);
}

/// Modulo a prime, the multiples of a number that the prime does not divide
/// are different for different multipliers below the prime, and none is 0.
proof fn lemma_multiples_differ(p: nat, a: nat, x: nat, y: nat)
    requires
        is_prime(p),
        a % p != 0,
        0 < x < p,
        x <= y < p,
    ensures
        (a * x) % p != 0,
        x != y ==> (a * x) % p != (a * y) % p,
{
    lemma_small_mod(x, p);
    if (a * x) % p == 0 {
        lemma_euclid(p, a, x);
    }
    if x != y && (a * x) % p == (a * y) % p {
        let d = (y - x) as nat;
        assert(a * y >= a * x && a * y - a * x == a * d) by (nonlinear_arith)
            requires
                y >= x,
                d == y - x,
        ;
        lemma_same_remainder(a * y, a * x, p);
        lemma_euclid(p, a, d);
        lemma_small_mod(d, p);
    }
}

/// The numbers from 1 up to `p - 1`.
spec fn residues(p: nat) -> Seq<nat> {
    Seq::new((p - 1) as nat, |i: int| (i + 1) as nat)
}

/// The remainders modulo `p` of `a` times each number from 1 up to `p - 1`.
spec fn multiples(a: nat, p: nat) -> Seq<nat> {
    Seq::new((p - 1) as nat, |i: int| (a * ((i + 1) as nat)) % p)
}

/// The first `n` multiples of `a` multiply, modulo `p`, to `a^n` times the
/// product of the first `n` numbers.
proof fn lemma_multiples_product(p: nat, a: nat, n: nat)
    requires
        p > 1,
        n <= p - 1,
    ensures
        product(multiples(a, p).take(n as int)) % p == ((pow(a as int, n) as nat) * product(
            residues(p).take(n as int),
        )) % p,
        pow(a as int, n) >= 0,
    decreases n,
{
    let t = multiples(a, p);
    let s = residues(p);
    if n == 0 {
        lemma_pow0(a as int);
        assert(t.take(0) =~= Seq::<nat>::empty());
        assert(s.take(0) =~= Seq::<nat>::empty());
        assert(product(t.take(0)) == 1);
        assert(product(s.take(0)) == 1);
        assert((pow(a as int, 0) as nat) * product(s.take(0)) == 1) by (nonlinear_arith)
            requires
                pow(a as int, 0) == 1,
                product(s.take(0)) == 1,
        ;
    } else {
        let m = (n - 1) as nat;
        lemma_multiples_product(p, a, m);
        assert(t.take(n as int).drop_last() =~= t.take(m as int));
        assert(s.take(n as int).drop_last() =~= s.take(m as int));
        let pt = product(t.take(m as int));
        let ps = product(s.take(m as int));
        let am = pow(a as int, m) as nat;
        assert(product(t.take(n as int)) == pt * ((a * n) % p));
        assert(product(s.take(n as int)) == ps * n);
        assert(pow(a as int, n) == a * pow(a as int, m)) by {
            reveal(pow);
        }
        assert(a * pow(a as int, m) >= 0) by (nonlinear_arith)
            requires
                pow(a as int, m) >= 0,
                a >= 0,
        ;
        let an = pow(a as int, n) as nat;
        let pi = p as int;
        let step = (a * n) as int;
        let lhs = (pt * ((a * n) % p)) as int;
        let mid = (am * ps) as int;
        lemma_mul_mod_noop_general(pt as int, step, pi);
        assert(lhs % pi == (pt * step) % pi);
        assert((pt * step) % pi == ((pt as int % pi) * step) % pi);
        lemma_mul_mod_noop_general(mid, step, pi);
        assert(((mid % pi) * step) % pi == (mid * step) % pi);
        assert(pt as int % pi == mid % pi);
        assert(mid * step == (an * (ps * n)) as int) by (nonlinear_arith)
            requires
                an == a * am,
                mid == am * ps,
                step == a * n,
        ;
        assert(lhs % pi == ((an * (ps * n)) as int) % pi);
        assert(product(t.take(n as int)) % p == (an * product(s.take(n as int))) % p);
    }
}

/// No prime divides the product of the numbers below it.
proof fn lemma_residues_product(p: nat, n: nat)
    requires
        is_prime(p),
        n <= p - 1,
    ensures
        product(residues(p).take(n as int)) % p != 0,
    decreases n,
{
    let s = residues(p);
    if n == 0 {
        assert(s.take(0) =~= Seq::<nat>::empty());
        assert(product(s.take(0)) == 1);
        lemma_small_mod(1, p);
    } else {
        let m = (n - 1) as nat;
        lemma_residues_product(p, m);
        assert(s.take(n as int).drop_last() =~= s.take(m as int));
        let ps = product(s.take(m as int));
        assert(product(s.take(n as int)) == ps * n);
        if (ps * n) % p == 0 {
            lemma_euclid(p, ps, n);
            lemma_small_mod(n, p);
        }
    }
}

/// Fermat's little theorem: for a prime `p` and a number `a` that it does
/// not divide, `a^(p-1)` leaves the remainder 1 modulo `p`.
pub proof fn lemma_fermat_little(p: nat, a: nat)
    requires
        is_prime(p),
        a % p != 0,
    ensures
        pow(a as int, (p - 1) as nat) % (p as int) == 1,
{
    let n = (p - 1) as nat;
    let t = multiples(a, p);
    let s = residues(p);
    assert(s.no_duplicates());
    assert(t.no_duplicates()) by {
        assert forall|i: int, j: int| 0 <= i < t.len() && 0 <= j < t.len() && i != j implies t[i]
            != t[j] by {
            if i < j {
                lemma_multiples_differ(p, a, (i + 1) as nat, (j + 1) as nat);
            } else {
                lemma_multiples_differ(p, a, (j + 1) as nat, (i + 1) as nat);
            }
        }
    }
    assert forall|i: int| 0 <= i < t.len() implies s.contains(#[trigger] t[i]) by {
        lemma_multiples_differ(p, a, (i + 1) as nat, (i + 1) as nat);
        let e = t[i];
        assert(0 < e < p);
        assert(s[e - 1] == e);
    }
    lemma_rearranged_product(t, s);
    lemma_multiples_product(p, a, n);
    lemma_residues_product(p, n);
    assert(t.take(n as int) =~= t);
    assert(s.take(n as int) =~= s);
    let f = product(s);
    let big = pow(a as int, n) as nat;
    assert(a > 0) by {
        if a == 0 {
            lemma_small_mod(0, p);
        }
    }
    lemma_pow_positive(a as int, n);
    assert(f % p == (big * f) % p);
    assert(big * f >= f && big * f - f == f * (big - 1)) by (nonlinear_arith)
        requires
            big >= 1,
    ;
    lemma_same_remainder(big * f, f, p);
    lemma_euclid(p, f, (big - 1) as nat);
    let k = ((big - 1) as nat) / p;
    lemma_fundamental_div_mod(big - 1, p as int);
    lemma_mod_multiples_vanish(k as int, 1, p as int);
    lemma_small_mod(1, p);
    assert(big == p * k + 1);
}

/// Modulo a prime, 1 has no square roots but 1 and -1.
pub proof fn lemma_square_root_of_one(p: nat, x: nat)
    requires
        is_prime(p),
        x < p,
        (x * x) % p == 1,
    ensures
        x == 1 || x == p - 1,
{
    lemma_small_mod(1, p);
    assert(x >= 1) by {
        if x == 0 {
            lemma_small_mod(0, p);
        }
    }
    assert(x * x >= 1 && x * x - 1 == (x - 1) * (x + 1)) by (nonlinear_arith)
        requires
            x >= 1,
    ;
    lemma_same_remainder(x * x, 1, p);
    lemma_euclid(p, (x - 1) as nat, x + 1);
    if ((x - 1) as nat) % p == 0 {
        lemma_small_mod((x - 1) as nat, p);
    } else {
        if x + 1 < p {
            lemma_small_mod(x + 1, p);
        }
    }
}

/// A number is its odd part times two to the number of times 2 divides
/// it, and the odd part of a positive number is odd.
pub proof fn lemma_odd_part_times_power(m: nat)
    ensures
        odd_part(m) * pow2(two_exponent(m)) == m,
        m > 0 ==> odd_part(m) % 2 == 1,
    decreases m,
{
    lemma2_to64();
    if m == 0 || m % 2 == 1 {
        assert(m * 1 == m) by (nonlinear_arith);
    } else {
        lemma_odd_part_times_power(m / 2);
        lemma_pow2_unfold(two_exponent(m));
        let h = pow2(two_exponent(m / 2));
        assert(odd_part(m / 2) * (2 * h) == 2 * (odd_part(m / 2) * h)) by (nonlinear_arith);
    }
}

/// Squaring the power doubles the exponent.
pub proof fn lemma_square_step(a: int, d: nat, i: nat, n: int)
    requires
        n > 0,
    ensures
        pow(a, d * pow2(i + 1)) % n == ((pow(a, d * pow2(i)) % n) * (pow(a, d * pow2(i)) % n)) % n,
{
    let e = d * pow2(i);
    lemma_pow2_unfold(i + 1);
    assert(d * pow2(i + 1) == e + e) by (nonlinear_arith)
        requires
            pow2(i + 1) == 2 * pow2(i),
            e == d * pow2(i),
    ;
    lemma_pow_adds(a, e, e);
    lemma_mul_mod_noop(pow(a, e), pow(a, e), n);
}

/// The value that the `i`-th squaring of a round reaches.
spec fn squared(p: nat, a: nat, d: nat, i: nat) -> int {
    pow(a as int, d * pow2(i)) % (p as int)
}

/// Along the squarings of a round modulo a prime, a value other than 1 that
/// is followed by a 1 later on is followed by -1 before that.
proof fn lemma_minus_one_before_one(p: nat, a: nat, d: nat, s: nat, j: nat)
    requires
        is_prime(p),
        j <= s,
        squared(p, a, d, s) == 1,
        squared(p, a, d, j) != 1,
    ensures
        exists|i: nat| j <= i < s && #[trigger] squared(p, a, d, i) == p - 1,
    decreases s - j,
{
    let x = squared(p, a, d, j);
    lemma_square_step(a as int, d, j, p as int);
    assert(0 <= x < p) by {
        vstd::arithmetic::div_mod::lemma_mod_bound(pow(a as int, d * pow2(j)), p as int);
    }
    if squared(p, a, d, j + 1) == 1 {
        lemma_square_root_of_one(p, x as nat);
        assert(squared(p, a, d, j) == p - 1);
    } else {
        lemma_minus_one_before_one(p, a, d, s, j + 1);
        let i = choose|i: nat| j + 1 <= i < s && #[trigger] squared(p, a, d, i) == p - 1;
        assert(j <= i < s && squared(p, a, d, i) == p - 1);
    }
}

/// A prime passes a round of the Miller-Rabin test with every base that it
/// does not divide.
pub proof fn lemma_prime_passes_round(p: nat, a: nat)
    requires
        is_prime(p),
        p >= 3,
        0 < a < p,
    ensures
        passes_round(p, a),
{
    let m = (p - 1) as nat;
    let d = odd_part(m);
    let s = two_exponent(m);
    lemma_small_mod(a, p);
    lemma_fermat_little(p, a);
    lemma_odd_part_times_power(m);
    lemma2_to64();
    assert(d * pow2(0) == d) by (nonlinear_arith)
        requires
            pow2(0) == 1,
    ;
    assert(squared(p, a, d, s) == 1);
    let x = pow(a as int, d) % (p as int);
    assert(x == squared(p, a, d, 0));
    if x != 1 {
        lemma_minus_one_before_one(p, a, d, s, 0);
        let i = choose|i: nat| 0 <= i < s && #[trigger] squared(p, a, d, i) == p - 1;
        assert(i < s && pow(a as int, d * pow2(i)) % (p as int) == p - 1);
    }
}

/// Two numbers from 2 on whose product is the product of two primes are
/// those two primes.
pub proof fn lemma_two_factors_of_two_primes(a: nat, b: nat, p: nat, q: nat)
    requires
        is_prime(p),
        is_prime(q),
        a >= 2,
        b >= 2,
        a * b == p * q,
    ensures
        (a == p && b == q) || (a == q && b == p),
{
    assert((p * q) % p == 0) by {
        assert(p * q == q * p) by (nonlinear_arith);
        lemma_mod_multiples_basic(q as int, p as int);
    }
    lemma_euclid(p, a, b);
    if a % p == 0 {
        let k = a / p;
        lemma_fundamental_div_mod(a as int, p as int);
        assert(k * b == q) by (nonlinear_arith)
            requires
                a == p * k,
                a * b == p * q,
                p > 0,
        ;
        assert(q % b == 0) by {
            lemma_mod_multiples_basic(k as int, b as int);
        }
        assert(b == q) by {
            if b != q {
                assert(b < q) by (nonlinear_arith)
                    requires
                        k * b == q,
                        b != q,
                        b >= 2,
                        q >= 2,
                ;
            }
        }
        assert(k == 1) by (nonlinear_arith)
            requires
                k * b == q,
                b == q,
                q >= 2,
        ;
    } else {
        let k = b / p;
        lemma_fundamental_div_mod(b as int, p as int);
        assert(k * a == q) by (nonlinear_arith)
            requires
                b == p * k,
                a * b == p * q,
                p > 0,
        ;
        assert(q % a == 0) by {
            lemma_mod_multiples_basic(k as int, a as int);
        }
        assert(a == q) by {
            if a != q {
                assert(a < q) by (nonlinear_arith)
                    requires
                        k * a == q,
                        a != q,
                        a >= 2,
                        q >= 2,
                ;
            }
        }
        assert(k == 1) by (nonlinear_arith)
            requires
                k * a == q,
                a == q,
                q >= 2,
        ;
    }
}

/// Numbers from 2 on whose product is a prime are that prime alone.
pub proof fn lemma_factors_of_prime(s: Seq<nat>, p: nat)
    requires
        is_prime(p),
        forall|i: int| 0 <= i < s.len() ==> #[trigger] s[i] >= 2,
        product(s) == p,
    ensures
        s.len() == 1,
        s[0] == p,
{
    if s.len() == 0 {
        assert(product(s) == 1);
    } else {
        let front = s.drop_last();
        let last = s.last();
        assert(last >= 2);
        if front.len() == 0 {
            assert(product(front) == 1);
            assert(1 * last == last) by (nonlinear_arith);
        } else {
            assert forall|j: int| 0 <= j < front.len() implies #[trigger] front[j] >= 1 by {
                assert(s[j] >= 2);
            }
            lemma_factor_at_most_product(front, 0);
            assert(front[0] == s[0]);
            let f = product(front);
            assert(f >= 2);
            assert(p % last == 0) by {
                lemma_mod_multiples_basic(f as int, last as int);
            }
            assert(last < p) by (nonlinear_arith)
                requires
                    f * last == p,
                    f >= 2,
                    last >= 2,
            ;
        }
    }
}

/// Two or more numbers from 2 on whose product is the product of two
/// primes are those two primes, in one order or the other.
pub proof fn lemma_factors_of_two_primes(s: Seq<nat>, p: nat, q: nat)
    requires
        is_prime(p),
        is_prime(q),
        s.len() >= 2,
        forall|i: int| 0 <= i < s.len() ==> #[trigger] s[i] >= 2,
        product(s) == p * q,
    ensures
        s.len() == 2,
        (s[0] == p && s[1] == q) || (s[0] == q && s[1] == p),
{
    let front = s.drop_last();
    let last = s.last();
    assert(last >= 2);
    assert forall|j: int| 0 <= j < front.len() implies #[trigger] front[j] >= 2 by {
        assert(s[j] >= 2);
    }
    assert forall|j: int| 0 <= j < front.len() implies #[trigger] front[j] >= 1 by {
        assert(front[j] >= 2);
    }
    lemma_factor_at_most_product(front, 0);
    let f = product(front);
    lemma_two_factors_of_two_primes(f, last, p, q);
    lemma_factors_of_prime(front, f);
    assert(front[0] == s[0]);
}

} // verus!
