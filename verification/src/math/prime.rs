//! Primality tests and factorization: trial division, the Miller-Rabin test
//! and Pollard's rho method.
use crate::math::basic::{divides, gcd_u64, is_gcd, pow_mod_u64};
use crate::math::fermat::{
    lemma_factors_of_two_primes, lemma_prime_passes_round, lemma_square_step,
};
use crate::math::primality::{
    factors32, factors64, is_prime, lemma_cofactor, lemma_divisor_of_divisor,
    lemma_divisor_of_quotient, lemma_factor_at_most_product, lemma_least_divisor_is_prime,
    lemma_odd_has_no_even_divisor, lemma_prime_by_trial, lemma_product_concat, lemma_product_push,
    lemma_two_is_prime,
    no_divisor_below, odd_part, passes_round, product, two_exponent,
};
use crate::random::generator::{IntGenerator, Pseudorandom64};
use crate::random::model::{draw_in_range, lemma_draw_in_range_bounded, SamplerView, Width};
use vstd::arithmetic::div_mod::{
    lemma_fundamental_div_mod, lemma_mod_multiples_basic, lemma_small_mod,
};
use vstd::arithmetic::mul::lemma_mul_upper_bound;
use vstd::arithmetic::power::pow;
use vstd::arithmetic::power2::{lemma2_to64, lemma_pow2_strictly_increases, lemma_pow2_unfold, pow2};
use vstd::prelude::*;
use vstd::std_specs::bits::u32_leading_zeros;

verus! {

/// A test that decides whether a number is prime.
///
/// A tester may keep state, such as a generator of bases. What its answers
/// depend on is its memory: the answer for a number, and the memory after
/// the answer, are a function of the number and of the memory before,
/// which `judge` names. Its error is one-sided: it may take a composite for
/// a prime, but never a prime for a composite.
pub trait PrimalityTest: Clone {
    /// What the answers of a tester depend on, and what answering changes.
    type Memory;

    /// The representation invariant.
    spec fn wf(&self) -> bool;

    /// The memory of this tester in its present state.
    spec fn memory(&self) -> Self::Memory;

    /// The memory after a tester with the given memory has answered for
    /// `n`, and its answer.
    spec fn judge(memory: Self::Memory, n: u64) -> (Self::Memory, bool);

    /// A clone has the same memory: it gives the same answers.
    proof fn lemma_clone_keeps_memory(&self, other: &Self)
        requires
            self.wf(),
            cloned(*self, *other),
        ensures
            other.wf(),
            other.memory() == self.memory(),
    ;

    /// A prime is never taken for a composite, whatever the memory.
    proof fn lemma_accepts_primes(memory: Self::Memory, n: u64)
        requires
            is_prime(n as nat),
        ensures
            Self::judge(memory, n).1,
    ;

    /// Tests whether the 32-bit `n` is prime. The answer for a prime is
    /// always that it is prime.
    fn is_prime_u32(&mut self, n: &u32) -> (r: bool)
        requires
            old(self).wf(),
        ensures
            final(self).wf(),
            (final(self).memory(), r) == Self::judge(old(self).memory(), *n as u64),
            is_prime(*n as nat) ==> r,
    ;

    /// Tests whether the 64-bit `n` is prime. The answer for a prime is
    /// always that it is prime.
    fn is_prime_u64(&mut self, n: &u64) -> (r: bool)
        requires
            old(self).wf(),
        ensures
            final(self).wf(),
            (final(self).memory(), r) == Self::judge(old(self).memory(), *n),
            is_prime(*n as nat) ==> r,
    ;
}

/// What the tester, in its present state, answers for `n`.
pub open spec fn verdict<PT: PrimalityTest>(tester: PT, n: u64) -> bool {
    PT::judge(tester.memory(), n).1
}

/// The memory of a tester that had the given memory and has since answered
/// for each of the `questions`, in turn.
pub open spec fn asked<PT: PrimalityTest>(memory: PT::Memory, questions: Seq<u64>) -> PT::Memory
    decreases questions.len(),
{
    if questions.len() == 0 {
        memory
    } else {
        PT::judge(asked::<PT>(memory, questions.drop_last()), questions.last()).0
    }
}

/// `n` passes the test of a tester with the given memory: it is prime,
/// which every tester accepts, or the tester, after it has answered for
/// some numbers, takes `n` for a prime.
pub open spec fn passes_test<PT: PrimalityTest>(memory: PT::Memory, n: u64) -> bool {
    is_prime(n as nat) || exists|questions: Seq<u64>|
        PT::judge(#[trigger] asked::<PT>(memory, questions), n).1
}

/// Having answered for some numbers and then for some more is having
/// answered for all of them in turn.
pub proof fn lemma_asked_on<PT: PrimalityTest>(memory: PT::Memory, a: Seq<u64>, b: Seq<u64>)
    ensures
        asked::<PT>(asked::<PT>(memory, a), b) == asked::<PT>(memory, a + b),
    decreases b.len(),
{
    if b.len() == 0 {
        assert(a + b =~= a);
    } else {
        lemma_asked_on::<PT>(memory, a, b.drop_last());
        assert((a + b).drop_last() =~= a + b.drop_last());
        assert((a + b).last() == b.last());
    }
}

/// What passes the test of a tester after it has answered for some numbers
/// passes the test of the tester as it was before.
pub proof fn lemma_passes_later<PT: PrimalityTest>(memory: PT::Memory, a: Seq<u64>, n: u64)
    requires
        passes_test::<PT>(asked::<PT>(memory, a), n),
    ensures
        passes_test::<PT>(memory, n),
{
    if !is_prime(n as nat) {
        let b = choose|b: Seq<u64>|
            PT::judge(#[trigger] asked::<PT>(asked::<PT>(memory, a), b), n).1;
        lemma_asked_on::<PT>(memory, a, b);
        assert(PT::judge(asked::<PT>(memory, a + b), n).1);
    }
}

/// A number that passes the test of a tester which, whatever it has
/// answered for before, answers rightly for that number, is prime.
pub proof fn lemma_right_tester_passes_primes<PT: PrimalityTest>(memory: PT::Memory, n: u64)
    requires
        passes_test::<PT>(memory, n),
        forall|questions: Seq<u64>|
            PT::judge(#[trigger] asked::<PT>(memory, questions), n).1 == is_prime(n as nat),
    ensures
        is_prime(n as nat),
{
}

/// A method that splits numbers into factors.
pub trait ExtractPrimeFactors: Clone {
    /// The representation invariant.
    spec fn extractor_wf(&self) -> bool;

    /// Splits the 32-bit `n` into factors whose product is `n`.
    fn extract_prime_factors_u32(&mut self, n: &u32) -> (r: Vec<u32>)
        requires
            old(self).extractor_wf(),
            *n >= 1,
        ensures
            final(self).extractor_wf(),
            product(factors32(r@)) == *n,
            forall|i: int| 0 <= i < r@.len() ==> #[trigger] r@[i] >= 2,
    ;

    /// Splits the 64-bit `n` into factors whose product is `n`.
    fn extract_prime_factors_u64(&mut self, n: &u64) -> (r: Vec<u64>)
        requires
            old(self).extractor_wf(),
            *n >= 1,
        ensures
            final(self).extractor_wf(),
            product(factors64(r@)) == *n,
            forall|i: int| 0 <= i < r@.len() ==> #[trigger] r@[i] >= 2,
    ;

    /// Finds a divisor of the 32-bit `n` strictly between 1 and `n`; there
    /// is none for a prime nor for `n <= 2`.
    fn extract_factor_u32(&mut self, n: &u32) -> (r: Option<u32>)
        requires
            old(self).extractor_wf(),
        ensures
            final(self).extractor_wf(),
            r matches Some(p) ==> 1 < p < *n && *n % p == 0,
            *n <= 2 || is_prime(*n as nat) ==> r is None,
    ;

    /// Finds a divisor of the 64-bit `n` strictly between 1 and `n`; there
    /// is none for a prime nor for `n <= 2`.
    fn extract_factor_u64(&mut self, n: &u64) -> (r: Option<u64>)
        requires
            old(self).extractor_wf(),
        ensures
            final(self).extractor_wf(),
            r matches Some(p) ==> 1 < p < *n && *n % p == 0,
            *n <= 2 || is_prime(*n as nat) ==> r is None,
    ;
}

/// Searches the odd numbers from 3 up to the square root of the odd `n`
/// for one that divides it, and returns the least.
fn least_odd_divisor(n: u64) -> (r: Option<u64>)
    requires
        n >= 3,
        n % 2 == 1,
    ensures
        r is None <==> is_prime(n as nat),
        r matches Some(p) ==> 3 <= p < n && p * p <= n && n % p == 0 && no_divisor_below(
            n as nat,
            p as nat,
        ),
{
    let mut i: u64 = 3;
    assert(no_divisor_below(n as nat, 3)) by {
        assert forall|d: nat| 1 < d < 3 implies #[trigger] (n as nat % d) != 0 by {
            assert(d == 2);
        }
    }
    while i <= n / i
        invariant
            n >= 3,
            n % 2 == 1,
            3 <= i,
            i % 2 == 1,
            no_divisor_below(n as nat, i as nat),
        decreases n - i,
    {
        proof {
            lemma_fundamental_div_mod(n as int, i as int);
            assert(i * i <= n) by (nonlinear_arith)
                requires
                    i <= n / i,
                    n == i * (n / i) + n % i,
                    0 <= n % i,
                    i > 0,
            ;
            assert(i < 0x1_0000_0000 && i < n) by (nonlinear_arith)
                requires
                    i * i <= n,
                    i >= 3,
                    n <= 0xFFFF_FFFF_FFFF_FFFF,
            ;
        }
        if n % i == 0 {
            proof {
                assert(!is_prime(n as nat)) by {
                    assert(n as nat % (i as nat) == 0);
                }
            }
            return Some(i);
        }
        proof {
            assert(no_divisor_below(n as nat, (i + 2) as nat)) by {
                assert forall|d: nat| 1 < d < i + 2 implies #[trigger] (n as nat % d) != 0 by {
                    if d == i + 1 {
                        lemma_odd_has_no_even_divisor(n as nat, d);
                    }
                }
            }
        }
        i += 2;
    }
    proof {
        lemma_fundamental_div_mod(n as int, i as int);
        assert(i * i > n) by (nonlinear_arith)
            requires
                i > n / i,
                n == i * (n / i) + n % i,
                n % i < i,
                i > 0,
        ;
        lemma_prime_by_trial(n as nat, i as nat);
    }
    None
}

/// Decides by trial division whether `n` is prime.
fn trial_is_prime(n: u64) -> (r: bool)
    ensures
        r == is_prime(n as nat),
{
    if n == 2 {
        return true;
    }
    if n < 2 || n % 2 == 0 {
        proof {
            if n >= 2 {
                assert(n as nat % 2 == 0);
            }
        }
        return false;
    }
    least_odd_divisor(n).is_none()
}

/// Finds by trial division the least divisor above 1 of `n`, where `n` has
/// one below itself.
fn trial_factor(n: u64) -> (r: Option<u64>)
    ensures
        r is None <==> n <= 2 || is_prime(n as nat),
        r matches Some(p) ==> 1 < p < n && n % p == 0 && no_divisor_below(n as nat, p as nat),
{
    if n <= 2 {
        return None;
    }
    if n % 2 == 0 {
        proof {
            assert(n as nat % 2 == 0);
        }
        return Some(2);
    }
    least_odd_divisor(n)
}

/// Dividing an odd number by one of its divisors leaves an odd number.
proof fn lemma_odd_quotient(m: nat, i: nat)
    requires
        m % 2 == 1,
        i > 0,
        m % i == 0,
    ensures
        (m / i) % 2 == 1,
{
    let q = m / i;
    if q % 2 == 0 {
        lemma_cofactor(m, i);
        if q > 0 {
            lemma_odd_has_no_even_divisor(m, q);
        }
    }
}

/// Taking the factor `i` out of the rest `m` and into the factors found
/// keeps their product with the rest, and the new factor divides `n`.
proof fn lemma_take_factor(found: Seq<u64>, m: u64, i: u64, n: u64)
    requires
        i > 0,
        m > 0,
        m % i == 0,
        product(factors64(found)) * m == n,
    ensures
        product(factors64(found.push(i))) * (m / i) == n,
        n % i == 0,
        m / i >= 1,
{
    let p = product(factors64(found));
    assert(factors64(found.push(i)) =~= factors64(found).push(i as nat));
    lemma_product_push(factors64(found), i as nat);
    lemma_cofactor(m as nat, i as nat);
    let q = (m / i) as nat;
    assert((p * i) * q == p * m) by (nonlinear_arith)
        requires
            q * i == m,
    ;
    assert(n == p * m);
    assert(p * m == m * p) by (nonlinear_arith);
    lemma_mod_multiples_basic(p as int, m as int);
    lemma_divisor_of_divisor(n as nat, m as nat, i as nat);
}

/// Splits `n` into its prime factors by trial division, least first.
fn trial_factors(n: u64) -> (r: Vec<u64>)
    requires
        n >= 1,
    ensures
        product(factors64(r@)) == n,
        forall|i: int| 0 <= i < r@.len() ==> is_prime(#[trigger] r@[i] as nat),
        forall|i: int| 0 <= i < r@.len() ==> n % #[trigger] r@[i] == 0,
        forall|i: int, j: int| 0 <= i < j < r@.len() ==> r@[i] <= r@[j],
{
    let mut ans: Vec<u64> = Vec::new();
    let mut m: u64 = n;
    assert(factors64(ans@) =~= Seq::<nat>::empty());
    assert(product(factors64(ans@)) * m == n) by {
        assert(product(factors64(ans@)) == 1);
    }
    while m % 2 == 0
        invariant
            m >= 1,
            product(factors64(ans@)) * m == n,
            forall|i: int| 0 <= i < ans@.len() ==> #[trigger] ans@[i] == 2,
            n % 2 == 0 || ans@.len() == 0,
        decreases m,
    {
        proof {
            lemma_take_factor(ans@, m, 2, n);
        }
        ans.push(2);
        m /= 2;
    }
    let mut i: u64 = 3;
    assert(no_divisor_below(m as nat, 3)) by {
        assert forall|d: nat| 1 < d < 3 implies #[trigger] (m as nat % d) != 0 by {
            assert(d == 2);
        }
    }
    while i <= m / i
        invariant
            m >= 1,
            m % 2 == 1,
            3 <= i,
            i % 2 == 1,
            product(factors64(ans@)) * m == n,
            no_divisor_below(m as nat, i as nat),
            forall|k: int| 0 <= k < ans@.len() ==> is_prime(#[trigger] ans@[k] as nat),
            forall|k: int| 0 <= k < ans@.len() ==> n % #[trigger] ans@[k] == 0,
            forall|k: int| 0 <= k < ans@.len() ==> #[trigger] ans@[k] <= i,
            forall|a: int, b: int| 0 <= a < b < ans@.len() ==> ans@[a] <= ans@[b],
            i <= 0x1_0000_0001,
        decreases m + 0x1_0000_0001 - i,
    {
        proof {
            lemma_fundamental_div_mod(m as int, i as int);
            assert(i < 0x1_0000_0000 && i <= m) by (nonlinear_arith)
                requires
                    i <= m / i,
                    m == i * (m / i) + m % i,
                    0 <= m % i,
                    i >= 3,
                    m <= 0xFFFF_FFFF_FFFF_FFFF,
            ;
        }
        let ghost rest = m;
        while m % i == 0
            invariant
                1 <= m <= rest,
                m % 2 == 1,
                3 <= i < 0x1_0000_0000,
                product(factors64(ans@)) * m == n,
                no_divisor_below(m as nat, i as nat),
                forall|k: int| 0 <= k < ans@.len() ==> is_prime(#[trigger] ans@[k] as nat),
                forall|k: int| 0 <= k < ans@.len() ==> n % #[trigger] ans@[k] == 0,
                forall|k: int| 0 <= k < ans@.len() ==> #[trigger] ans@[k] <= i,
                forall|a: int, b: int| 0 <= a < b < ans@.len() ==> ans@[a] <= ans@[b],
            decreases m,
        {
            proof {
                lemma_take_factor(ans@, m, i, n);
                lemma_least_divisor_is_prime(m as nat, i as nat);
                lemma_odd_quotient(m as nat, i as nat);
                assert(no_divisor_below((m / i) as nat, i as nat)) by {
                    assert forall|d: nat| 1 < d < i implies #[trigger] ((m / i) as nat % d)
                        != 0 by {
                        if (m / i) as nat % d == 0 {
                            lemma_divisor_of_quotient(m as nat, i as nat, d);
                            assert(m as nat % d == 0);
                        }
                    }
                }
                lemma_fundamental_div_mod(m as int, i as int);
                assert(m / i < m) by (nonlinear_arith)
                    requires
                        m == i * (m / i),
                        i >= 3,
                        m >= 1,
                ;
            }
            ans.push(i);
            m /= i;
        }
        proof {
            assert(no_divisor_below(m as nat, (i + 2) as nat)) by {
                assert forall|d: nat| 1 < d < i + 2 implies #[trigger] (m as nat % d) != 0 by {
                    if d == i + 1 {
                        lemma_odd_has_no_even_divisor(m as nat, d);
                    }
                }
            }
        }
        i += 2;
    }
    if m != 1 {
        proof {
            lemma_fundamental_div_mod(m as int, i as int);
            assert(i * i > m) by (nonlinear_arith)
                requires
                    i > m / i,
                    m == i * (m / i) + m % i,
                    m % i < i,
                    i > 0,
            ;
            lemma_prime_by_trial(m as nat, i as nat);
            assert(m >= i) by {
                if m < i {
                    assert(m as nat % (m as nat) == 0);
                }
            }
            assert(factors64(ans@.push(m)) =~= factors64(ans@).push(m as nat));
            lemma_product_push(factors64(ans@), m as nat);
            let p = product(factors64(ans@));
            assert(p * m == m * p) by (nonlinear_arith);
            lemma_mod_multiples_basic(p as int, m as int);
        }
        ans.push(m);
    } else {
        proof {
            let p = product(factors64(ans@));
            assert(p * 1 == p) by (nonlinear_arith);
        }
    }
    ans
}

/// The same factors in 32 bits, where each of them fits.
fn narrow_factors(wide: &Vec<u64>) -> (r: Vec<u32>)
    requires
        forall|i: int| 0 <= i < wide@.len() ==> #[trigger] wide@[i] <= u32::MAX,
    ensures
        r@.len() == wide@.len(),
        forall|i: int| 0 <= i < r@.len() ==> #[trigger] r@[i] == wide@[i],
        factors32(r@) == factors64(wide@),
{
    let mut r: Vec<u32> = Vec::new();
    let mut i: usize = 0;
    while i < wide.len()
        invariant
            i <= wide@.len(),
            r@.len() == i,
            forall|j: int| 0 <= j < wide@.len() ==> #[trigger] wide@[j] <= u32::MAX,
            forall|j: int| 0 <= j < i ==> #[trigger] r@[j] == wide@[j],
        decreases wide@.len() - i,
    {
        r.push(wide[i] as u32);
        i += 1;
    }
    assert(factors32(r@) =~= factors64(wide@));
    r
}

/// A divisor of a positive number is at most the number.
proof fn lemma_divisor_at_most(n: nat, d: nat)
    requires
        n > 0,
        d > 0,
        n % d == 0,
    ensures
        d <= n,
{
    if d > n {
        lemma_small_mod(n, d);
    }
}

/// Primality testing and factorization by trial division, in `O(sqrt(n))`
/// steps. It has no state and its answers are exact.
#[derive(Debug)]
pub struct BruteForcePrimalityTest {}

impl Clone for BruteForcePrimalityTest {
    fn clone(&self) -> (r: Self)
        ensures
            r == *self,
    {
        BruteForcePrimalityTest {  }
    }
}

impl BruteForcePrimalityTest {
    /// Creates the trial-division tester.
    pub fn new() -> (r: BruteForcePrimalityTest)
        ensures
            r.wf(),
            r.extractor_wf(),
    {
        BruteForcePrimalityTest {  }
    }
}

impl PrimalityTest for BruteForcePrimalityTest {
    open spec fn wf(&self) -> bool {
        true
    }

    type Memory = ();

    open spec fn memory(&self) -> () {
        ()
    }

    /// Trial division answers exactly whether `n` is prime, and remembers
    /// nothing.
    open spec fn judge(memory: (), n: u64) -> ((), bool) {
        ((), is_prime(n as nat))
    }

    proof fn lemma_clone_keeps_memory(&self, other: &Self) {
    }

    proof fn lemma_accepts_primes(memory: (), n: u64) {
    }

    /// Tests whether `n` is prime: 2 is, smaller and other even numbers are
    /// not, and an odd number is tried against the odd numbers up to its
    /// square root.
    fn is_prime_u32(&mut self, n: &u32) -> (r: bool)
        ensures
            r == is_prime(*n as nat),
    {
        trial_is_prime(*n as u64)
    }

    /// Tests whether `n` is prime: 2 is, smaller and other even numbers are
    /// not, and an odd number is tried against the odd numbers up to its
    /// square root.
    fn is_prime_u64(&mut self, n: &u64) -> (r: bool)
        ensures
            r == is_prime(*n as nat),
    {
        trial_is_prime(*n)
    }
}

impl ExtractPrimeFactors for BruteForcePrimalityTest {
    open spec fn extractor_wf(&self) -> bool {
        true
    }

    /// Splits `n` into its prime factors, least first, each as often as it
    /// divides `n`.
    fn extract_prime_factors_u32(&mut self, n: &u32) -> (r: Vec<u32>)
        ensures
            forall|i: int| 0 <= i < r@.len() ==> is_prime(#[trigger] r@[i] as nat),
            forall|i: int, j: int| 0 <= i < j < r@.len() ==> r@[i] <= r@[j],
    {
        let wide = trial_factors(*n as u64);
        proof {
            assert forall|i: int| 0 <= i < wide@.len() implies #[trigger] wide@[i] <= u32::MAX by {
                lemma_divisor_at_most(*n as nat, wide@[i] as nat);
            }
        }
        narrow_factors(&wide)
    }

    /// Splits `n` into its prime factors, least first, each as often as it
    /// divides `n`.
    fn extract_prime_factors_u64(&mut self, n: &u64) -> (r: Vec<u64>)
        ensures
            forall|i: int| 0 <= i < r@.len() ==> is_prime(#[trigger] r@[i] as nat),
            forall|i: int, j: int| 0 <= i < j < r@.len() ==> r@[i] <= r@[j],
    {
        trial_factors(*n)
    }

    /// Finds the least divisor above 1 of `n`, which is prime. There is
    /// none exactly where `n` is prime or `n <= 2`.
    fn extract_factor_u32(&mut self, n: &u32) -> (r: Option<u32>)
        ensures
            r is None <==> *n <= 2 || is_prime(*n as nat),
            r matches Some(p) ==> no_divisor_below(*n as nat, p as nat) && is_prime(p as nat),
    {
        match trial_factor(*n as u64) {
            Some(p) => {
                proof {
                    lemma_least_divisor_is_prime(*n as nat, p as nat);
                }
                Some(p as u32)
            },
            None => None,
        }
    }

    /// Finds the least divisor above 1 of `n`, which is prime. There is
    /// none exactly where `n` is prime or `n <= 2`.
    fn extract_factor_u64(&mut self, n: &u64) -> (r: Option<u64>)
        ensures
            r is None <==> *n <= 2 || is_prime(*n as nat),
            r matches Some(p) ==> no_divisor_below(*n as nat, p as nat) && is_prime(p as nat),
    {
        let r = trial_factor(*n);
        proof {
            if let Some(p) = r {
                lemma_least_divisor_is_prime(*n as nat, p as nat);
            }
        }
        r
    }
}

/// Writes `m` as an odd number times a power of two.
fn split_odd(m: u64) -> (r: (u64, u32))
    requires
        m >= 1,
    ensures
        r.0 == odd_part(m as nat),
        r.1 == two_exponent(m as nat),
        r.0 >= 1,
        r.1 < 64,
{
    let mut d: u64 = m;
    let mut s: u32 = 0;
    proof {
        lemma2_to64();
    }
    while d % 2 == 0
        invariant
            d >= 1,
            s < 64,
            d * pow2(s as nat) == m,
            odd_part(d as nat) == odd_part(m as nat),
            s + two_exponent(d as nat) == two_exponent(m as nat),
        decreases d,
    {
        proof {
            lemma_pow2_unfold((s + 1) as nat);
            assert((d / 2) * pow2((s + 1) as nat) == m) by (nonlinear_arith)
                requires
                    d * pow2(s as nat) == m,
                    pow2((s + 1) as nat) == 2 * pow2(s as nat),
                    d % 2 == 0,
            ;
            if s + 1 >= 64 {
                if s + 1 > 64 {
                    lemma_pow2_strictly_increases(64, (s + 1) as nat);
                }
                lemma2_to64();
                assert(pow2((s + 1) as nat) >= 0x1_0000_0000_0000_0000);
                assert((d / 2) * pow2((s + 1) as nat) >= 0x1_0000_0000_0000_0000)
                    by (nonlinear_arith)
                    requires
                        d / 2 >= 1,
                        pow2((s + 1) as nat) >= 0x1_0000_0000_0000_0000,
                ;
            }
        }
        d /= 2;
        s += 1;
    }
    (d, s)
}

/// One round of the Miller-Rabin test of `n` with the base `a`.
fn round_passes(n: u64, d: u64, s: u32, a: u64) -> (r: bool)
    requires
        n >= 3,
        d == odd_part((n - 1) as nat),
        s == two_exponent((n - 1) as nat),
        d >= 1,
    ensures
        r == passes_round(n as nat, a as nat),
{
    let last: u128 = (n - 1) as u128;
    let modulus: u128 = n as u128;
    let mut x: u128 = pow_mod_u64(&a, &d, &n) as u128;
    if x == 1 || x == last {
        return true;
    }
    proof {
        lemma2_to64();
        assert(d * pow2(0) == d) by (nonlinear_arith)
            requires
                pow2(0) == 1,
        ;
    }
    let mut i: u32 = 0;
    while i < s
        invariant
            i <= s,
            n >= 3,
            d == odd_part((n - 1) as nat),
            s == two_exponent((n - 1) as nat),
            last == n - 1,
            modulus == n,
            x < n,
            x == pow(a as int, d as nat * pow2(i as nat)) % (n as int),
            forall|j: nat|
                j < i ==> #[trigger] pow(a as int, d as nat * pow2(j)) % (n as int) != n - 1,
        decreases s - i,
    {
        if x == last {
            proof {
                let dd = odd_part((n - 1) as nat);
                let w = i as nat;
                assert(w < two_exponent((n - 1) as nat));
                assert(pow(a as int, dd * pow2(w)) % (n as int) == n - 1);
            }
            return true;
        }
        proof {
            lemma_square_step(a as int, d as nat, i as nat, n as int);
            lemma_mul_upper_bound(x as int, n as int, x as int, n as int);
            assert(n * n <= 0xFFFF_FFFF_FFFF_FFFF * 0xFFFF_FFFF_FFFF_FFFF) by (nonlinear_arith)
                requires
                    n <= 0xFFFF_FFFF_FFFF_FFFF,
            ;
        }
        i += 1;
        x = x * x % modulus;
    }
    false
}

/// The number of rounds of a Miller-Rabin tester made without a count.
pub const DEFAULT_ROUNDS: u32 = 20;

/// Whether trial division is used in place of the randomized rounds: for
/// every `n` below 3, and for a 32-bit `n` up to the square of the steps
/// that `rounds` rounds are expected to take, which is the square of the bit
/// length of `n` times `rounds`.
pub open spec fn trial_division_is_cheaper(n: u64, rounds: u32) -> bool {
    ||| n < 3
    ||| n <= u32::MAX && {
        let bits = 32 - u32_leading_zeros(n as u32);
        let steps = bits * bits * rounds;
        n <= steps * steps
    }
}

/// The width that the bases for `n` are drawn with.
pub open spec fn base_width(n: u64) -> Width {
    if n <= u32::MAX {
        Width::W32
    } else {
        Width::W64
    }
}

/// `rounds` rounds of the Miller-Rabin test of `n`, each with a base
/// sampled from `[2, n)`: the state after the last draw, and whether every
/// round passed. The rounds stop at the first base that witnesses `n` to be
/// composite. Where a draw gives up, trial division decides.
pub open spec fn draw_rounds(
    src: spec_fn(nat) -> u64,
    v: SamplerView,
    w: Width,
    n: nat,
    rounds: nat,
) -> (SamplerView, bool)
    decreases rounds,
{
    if rounds == 0 {
        (v, true)
    } else {
        let (next, base) = draw_in_range(src, v, w, 2, n as int);
        match base {
            Ok(a) => if passes_round(n, a as nat) {
                draw_rounds(src, next, w, n, (rounds - 1) as nat)
            } else {
                (next, false)
            },
            Err(_) => (next, is_prime(n)),
        }
    }
}

/// Whatever bases are drawn, the rounds take a prime for a prime.
pub proof fn lemma_rounds_accept_primes(
    src: spec_fn(nat) -> u64,
    v: SamplerView,
    w: Width,
    n: nat,
    rounds: nat,
)
    requires
        is_prime(n),
        n >= 3,
    ensures
        draw_rounds(src, v, w, n, rounds).1,
    decreases rounds,
{
    if rounds > 0 {
        let (next, base) = draw_in_range(src, v, w, 2, n as int);
        lemma_draw_in_range_bounded(src, v, w, 2, n as int);
        if let Ok(a) = base {
            lemma_prime_passes_round(n, a as nat);
            lemma_rounds_accept_primes(src, next, w, n, (rounds - 1) as nat);
        }
    }
}

/// What the answers of a Miller-Rabin tester depend on: the stream that
/// its bases are made from, the state of the sampler that draws them, and
/// the number of rounds.
pub struct RoundsMemory {
    /// The stream of words that the bases are made from.
    pub source: spec_fn(nat) -> u64,
    /// The state of the sampler that the bases are drawn from.
    pub view: SamplerView,
    /// The number of rounds of each test.
    pub rounds: u32,
}

/// The Miller-Rabin primality test with a fixed number of rounds.
///
/// A prime is reported prime whatever bases are drawn. A composite is
/// reported prime only if every round draws a base that fails to witness
/// it, which for each round happens for at most a quarter of the bases.
pub struct MillerRabin<RNG: Pseudorandom64> {
    rng: IntGenerator<RNG>,
    tests: u32,
}

impl<RNG: Pseudorandom64> View for MillerRabin<RNG> {
    type V = SamplerView;

    /// The state of the sampler that the bases are drawn from.
    closed spec fn view(&self) -> SamplerView {
        self.rng@
    }
}

impl<RNG: Pseudorandom64> Clone for MillerRabin<RNG> {
    /// The clone is in the same state: it will draw the same bases.
    fn clone(&self) -> (r: Self)
        ensures
            self.wf() ==> r.wf() && r.source() == self.source() && r@ == self@ && r.rounds()
                == self.rounds(),
    {
        MillerRabin { rng: self.rng.clone(), tests: self.tests }
    }
}

impl<RNG: Pseudorandom64> MillerRabin<RNG> {
    /// The stream of words that the bases are made from.
    pub closed spec fn source(&self) -> spec_fn(nat) -> u64 {
        self.rng.source()
    }

    /// The number of rounds of each test.
    pub closed spec fn rounds(&self) -> u32 {
        self.tests
    }

    /// What a test of `n` in this state leads to: the state of the sampler
    /// after it, and the answer.
    pub open spec fn outcome(&self, n: u64) -> (SamplerView, bool) {
        if trial_division_is_cheaper(n, self.rounds()) {
            (self@, is_prime(n as nat))
        } else {
            draw_rounds(self.source(), self@, base_width(n), n as nat, self.rounds() as nat)
        }
    }

    /// Creates a tester with `tests` rounds, 20 where none is given, that
    /// draws its bases from a clone of `rng`.
    pub fn new(rng: &RNG, tests: Option<u32>) -> (r: MillerRabin<RNG>)
        requires
            rng.wf(),
        ensures
            r.wf(),
            r.source() == rng.stream(),
            r@ == (SamplerView {
                pos: rng.cursor(),
                queue8: Seq::empty(),
                queue16: Seq::empty(),
                queue32: Seq::empty(),
            }),
            r.rounds() == match tests {
                Some(t) => t,
                None => DEFAULT_ROUNDS,
            },
    {
        MillerRabin {
            rng: IntGenerator::new(rng),
            tests: match tests {
                Some(t) => t,
                None => DEFAULT_ROUNDS,
            },
        }
    }

    /// Draws a base for `n` from `[2, n)`, with 32-bit draws where `n` has
    /// 32 bits.
    fn draw_base(&mut self, n: u64) -> (r: Option<u64>)
        requires
            old(self).wf(),
        ensures
            final(self).wf(),
            final(self).source() == old(self).source(),
            final(self).rounds() == old(self).rounds(),
            final(self)@ == draw_in_range(
                old(self).source(),
                old(self)@,
                base_width(n),
                2,
                n as int,
            ).0,
            match draw_in_range(old(self).source(), old(self)@, base_width(n), 2, n as int).1 {
                Ok(a) => r == Some(a as u64) && 2 <= a < n,
                Err(_) => r is None,
            },
    {
        if n <= u32::MAX as u64 {
            match self.rng.gen_range_u32(2..(n as u32)) {
                Ok(a) => Some(a as u64),
                Err(_) => None,
            }
        } else {
            match self.rng.gen_range_u64(2..n) {
                Ok(a) => Some(a),
                Err(_) => None,
            }
        }
    }

    /// Tests `n`: by trial division where that is cheaper, else by the
    /// rounds.
    #[verifier::loop_isolation(false)]
    fn test(&mut self, n: u64) -> (r: bool)
        requires
            old(self).wf(),
        ensures
            final(self).wf(),
            final(self).source() == old(self).source(),
            final(self).rounds() == old(self).rounds(),
            (final(self)@, r) == old(self).outcome(n),
    {
        if n < 3 {
            return trial_is_prime(n);
        }
        if n <= u32::MAX as u64 {
            let bits: u128 = (32 - (n as u32).leading_zeros()) as u128;
            let rounds: u128 = self.tests as u128;
            assert(bits * bits <= 1024) by (nonlinear_arith)
                requires
                    0 <= bits <= 32,
            ;
            assert(bits * bits * rounds <= 1024 * 0xFFFF_FFFF) by (nonlinear_arith)
                requires
                    0 <= bits <= 32,
                    0 <= rounds <= 0xFFFF_FFFF,
            ;
            let steps: u128 = bits * bits * rounds;
            assert(steps * steps <= (1024 * 0xFFFF_FFFF) * (1024 * 0xFFFF_FFFF))
                by (nonlinear_arith)
                requires
                    0 <= steps <= 1024 * 0xFFFF_FFFF,
            ;
            if n as u128 <= steps * steps {
                return trial_is_prime(n);
            }
        }
        let (d, s) = split_odd(n - 1);
        let ghost src = self.source();
        let ghost origin = self@;
        let mut round: u32 = 0;
        while round < self.tests
            invariant
                self.wf(),
                self.source() == src,
                self.rounds() == old(self).rounds(),
                self.tests == self.rounds(),
                round <= self.tests,
                n >= 3,
                d == odd_part((n - 1) as nat),
                s == two_exponent((n - 1) as nat),
                d >= 1,
                draw_rounds(src, self@, base_width(n), n as nat, (self.tests - round) as nat)
                    == draw_rounds(src, origin, base_width(n), n as nat, self.tests as nat),
            decreases self.tests - round,
        {
            match self.draw_base(n) {
                Some(a) => {
                    if !round_passes(n, d, s, a) {
                        return false;
                    }
                },
                None => {
                    return trial_is_prime(n);
                },
            }
            round += 1;
        }
        true
    }
}

impl<RNG: Pseudorandom64> PrimalityTest for MillerRabin<RNG> {
    closed spec fn wf(&self) -> bool {
        self.rng.wf()
    }

    type Memory = RoundsMemory;

    open spec fn memory(&self) -> RoundsMemory {
        RoundsMemory { source: self.source(), view: self@, rounds: self.rounds() }
    }

    /// The answer that trial division gives where it is cheaper, and
    /// otherwise the answer that the rounds give with the bases drawn from
    /// the sampler, which is left in the state after the last draw.
    open spec fn judge(memory: RoundsMemory, n: u64) -> (RoundsMemory, bool) {
        if trial_division_is_cheaper(n, memory.rounds) {
            (memory, is_prime(n as nat))
        } else {
            let (view, passed) = draw_rounds(
                memory.source,
                memory.view,
                base_width(n),
                n as nat,
                memory.rounds as nat,
            );
            (RoundsMemory { view, ..memory }, passed)
        }
    }

    proof fn lemma_clone_keeps_memory(&self, other: &Self) {
    }

    proof fn lemma_accepts_primes(memory: RoundsMemory, n: u64) {
        if !trial_division_is_cheaper(n, memory.rounds) {
            lemma_rounds_accept_primes(
                memory.source,
                memory.view,
                base_width(n),
                n as nat,
                memory.rounds as nat,
            );
        }
    }

    /// Tests whether the 32-bit `n` is prime, leaving the sampler in the
    /// state after the last base drawn.
    fn is_prime_u32(&mut self, n: &u32) -> (r: bool)
        ensures
            final(self).source() == old(self).source(),
            final(self).rounds() == old(self).rounds(),
            (final(self)@, r) == old(self).outcome(*n as u64),
    {
        proof {
            if is_prime(*n as nat) {
                Self::lemma_accepts_primes(self.memory(), *n as u64);
            }
        }
        self.test(*n as u64)
    }

    /// Tests whether the 64-bit `n` is prime, leaving the sampler in the
    /// state after the last base drawn.
    fn is_prime_u64(&mut self, n: &u64) -> (r: bool)
        ensures
            final(self).source() == old(self).source(),
            final(self).rounds() == old(self).rounds(),
            (final(self)@, r) == old(self).outcome(*n),
    {
        proof {
            if is_prime(*n as nat) {
                Self::lemma_accepts_primes(self.memory(), *n);
            }
        }
        self.test(*n)
    }
}

/// How many steps of the rho walk one factor search may take before it
/// falls back on trial division.
pub const RHO_STEP_LIMIT: u64 = 0x400_0000;

/// The gcd with `n`, where it is a divisor of `n` strictly between 1 and
/// `n`.
fn proper_gcd(x: u64, n: u64) -> (r: Option<u64>)
    requires
        n >= 1,
    ensures
        r matches Some(d) ==> 1 < d < n && n % d == 0 && is_gcd(x as nat, n as nat, d as nat),
        r is None ==> is_gcd(x as nat, n as nat, 1) || is_gcd(x as nat, n as nat, n as nat),
{
    let d = gcd_u64(x, n);
    assert(d >= 1) by {
        if d == 0 {
            assert(divides(0, n as nat));
        }
    }
    proof {
        lemma_divisor_at_most(n as nat, d as nat);
    }
    if d > 1 && d < n {
        Some(d)
    } else {
        None
    }
}

/// One walk of Pollard's rho method with Brent's cycle detection.
///
/// The walk `t <- t^2 + c mod n` starts at 0. In batches of 1, 2, 4, ..
/// steps the differences between the walk and its value at the start of the
/// batch are multiplied up modulo `n`, and the gcd of the product with `n`
/// is taken every 127 steps and at the end of each batch. A gcd strictly
/// between 1 and `n` is the factor found. Where the product becomes 0 the
/// gcd of the last difference is taken in its place, and the walk ends.
/// Each step takes one unit of `fuel`; the walk also ends when none is left.
fn rho_walk(n: u64, c: u64, fuel: &mut u64) -> (r: Option<u64>)
    requires
        n >= 3,
        c < n,
    ensures
        r matches Some(d) ==> 1 < d < n && n % d == 0,
        *final(fuel) <= *old(fuel),
        *old(fuel) > 0 ==> *final(fuel) < *old(fuel),
{
    let modulus: u128 = n as u128;
    let step: u128 = c as u128;
    let mut s: u128 = 0;
    let mut t: u128 = 0;
    let mut goal: u64 = 1;
    loop
        invariant
            n >= 3,
            modulus == n,
            step == c,
            c < n,
            s < n,
            t < n,
            goal >= 1,
            *fuel <= *old(fuel),
            *fuel < *old(fuel) || goal == 1,
        decreases *fuel,
    {
        let ghost at_start = *fuel;
        let mut val: u128 = 1;
        let mut done: u64 = 0;
        while done < goal
            invariant
                n >= 3,
                modulus == n,
                step == c,
                c < n,
                s < n,
                t < n,
                val < n,
                val != 0,
                done <= goal,
                *fuel <= at_start,
                at_start <= *old(fuel),
                done > 0 ==> *fuel < at_start,
            decreases goal - done,
        {
            if *fuel == 0 {
                return None;
            }
            *fuel -= 1;
            proof {
                lemma_mul_upper_bound(t as int, n as int, t as int, n as int);
                assert(n * n <= 0xFFFF_FFFF_FFFF_FFFF * 0xFFFF_FFFF_FFFF_FFFF) by (nonlinear_arith)
                    requires
                        n <= 0xFFFF_FFFF_FFFF_FFFF,
                ;
            }
            t = (t * t) % modulus + step;
            if t >= modulus {
                t -= modulus;
            }
            let diff: u128 = if t > s {
                t - s
            } else {
                s - t
            };
            proof {
                lemma_mul_upper_bound(val as int, n as int, diff as int, n as int);
            }
            val = val * diff % modulus;
            done += 1;
            if val == 0 {
                if t != s {
                    return proper_gcd(diff as u64, n);
                }
                return None;
            }
            if done % 127 == 0 {
                match proper_gcd(val as u64, n) {
                    Some(d) => {
                        return Some(d);
                    },
                    None => {},
                }
            }
        }
        match proper_gcd(val as u64, n) {
            Some(d) => {
                return Some(d);
            },
            None => {},
        }
        s = t;
        goal = if goal > u64::MAX / 2 {
            u64::MAX
        } else {
            goal * 2
        };
    }
}

/// As many factors 2 as the number given.
pub open spec fn twos(e: nat) -> Seq<u64> {
    Seq::new(e, |i: int| 2u64)
}

/// Factorization by Pollard's rho method, with a primality tester that
/// decides when a number needs no further splitting.
pub struct PollardRho<RNG: Pseudorandom64, PT: PrimalityTest> {
    rng: IntGenerator<RNG>,
    primality_tester: PT,
}

impl<RNG: Pseudorandom64, PT: PrimalityTest> Clone for PollardRho<RNG, PT> {
    /// The clone holds clones of the sampler and of the tester, in the
    /// same state.
    fn clone(&self) -> (r: Self)
        ensures
            self.extractor_wf() ==> r.extractor_wf() && r.source() == self.source() && r.sampler()
                == self.sampler() && r.tester().memory() == self.tester().memory(),
    {
        let r = PollardRho {
            rng: self.rng.clone(),
            primality_tester: self.primality_tester.clone(),
        };
        proof {
            if self.extractor_wf() {
                self.primality_tester.lemma_clone_keeps_memory(&r.primality_tester);
            }
        }
        r
    }
}

/// The memory of the tester of a factorizer.
pub open spec fn start_memory<RNG: Pseudorandom64, PT: PrimalityTest>(
    rho: PollardRho<RNG, PT>,
) -> PT::Memory {
    rho.tester().memory()
}

/// The odd part of `n` is more than 1, and the tester of the factorizer
/// takes it for a prime.
pub open spec fn accepts_odd_part<RNG: Pseudorandom64, PT: PrimalityTest>(
    rho: PollardRho<RNG, PT>,
    n: u64,
) -> bool {
    odd_part(n as nat) > 1 && verdict(rho.tester(), odd_part(n as nat) as u64)
}

/// The odd part of a number is at most the number.
pub proof fn lemma_odd_part_at_most(m: nat)
    ensures
        odd_part(m) <= m,
    decreases m,
{
    if m != 0 && m % 2 == 0 {
        lemma_odd_part_at_most(m / 2);
    }
}

/// The odd part of `n` is more than 1, and the tester of the factorizer
/// takes it for a composite.
pub open spec fn rejects_odd_part<RNG: Pseudorandom64, PT: PrimalityTest>(
    rho: PollardRho<RNG, PT>,
    n: u64,
) -> bool {
    odd_part(n as nat) > 1 && !verdict(rho.tester(), odd_part(n as nat) as u64)
}

/// Two or more factors from 2 on whose product is the product of two
/// primes are those two primes, in one order or the other. So this is what
/// the factorizer gives for the product of two odd primes that its tester
/// takes for a composite.
pub proof fn lemma_split_of_two_primes(r: Seq<u64>, p: u64, q: u64)
    requires
        is_prime(p as nat),
        is_prime(q as nat),
        r.len() >= 2,
        forall|i: int| 0 <= i < r.len() ==> #[trigger] r[i] >= 2,
        product(factors64(r)) == p * q,
    ensures
        r.len() == 2,
        (r[0] == p && r[1] == q) || (r[0] == q && r[1] == p),
{
    let s = factors64(r);
    assert forall|i: int| 0 <= i < s.len() implies #[trigger] s[i] >= 2 by {
        assert(r[i] >= 2);
    }
    assert((p as nat) * (q as nat) == p * q) by (nonlinear_arith);
    lemma_factors_of_two_primes(s, p as nat, q as nat);
    assert(s[0] == r[0] && s[1] == r[1]);
}

/// A factor of an odd number is odd.
proof fn lemma_odd_factor(x: nat, p: nat)
    requires
        x % 2 == 1,
        p > 0,
        x % p == 0,
    ensures
        p % 2 == 1,
{
    if p % 2 == 0 {
        lemma_odd_has_no_even_divisor(x, p);
    }
}

impl<RNG: Pseudorandom64, PT: PrimalityTest> PollardRho<RNG, PT> {
    /// The primality tester in its present state.
    pub closed spec fn tester(&self) -> PT {
        self.primality_tester
    }

    /// The stream of words that the constants of the walks are made from.
    pub closed spec fn source(&self) -> spec_fn(nat) -> u64 {
        self.rng.source()
    }

    /// The state of the sampler that the constants of the walks are drawn
    /// from.
    pub closed spec fn sampler(&self) -> SamplerView {
        self.rng@
    }

    /// Creates a factorizer that draws from a clone of `rng` and asks a
    /// clone of `primality_tester`.
    pub fn new(rng: &RNG, primality_tester: &PT) -> (r: PollardRho<RNG, PT>)
        requires
            rng.wf(),
            primality_tester.wf(),
        ensures
            r.extractor_wf(),
            r.tester().memory() == primality_tester.memory(),
            r.source() == rng.stream(),
            r.sampler() == (SamplerView {
                pos: rng.cursor(),
                queue8: Seq::empty(),
                queue16: Seq::empty(),
                queue32: Seq::empty(),
            }),
    {
        let tester = primality_tester.clone();
        proof {
            primality_tester.lemma_clone_keeps_memory(&tester);
        }
        PollardRho { rng: IntGenerator::new(rng), primality_tester: tester }
    }

    /// Draws the constant of a walk for `n` from `[1, n)`, with 32-bit draws
    /// where `n` has 32 bits.
    fn draw_constant(&mut self, n: u64) -> (r: Option<u64>)
        requires
            old(self).extractor_wf(),
        ensures
            final(self).extractor_wf(),
            final(self).tester() == old(self).tester(),
            final(self).source() == old(self).source(),
            final(self).sampler() == draw_in_range(
                old(self).source(),
                old(self).sampler(),
                base_width(n),
                1,
                n as int,
            ).0,
            match draw_in_range(
                old(self).source(),
                old(self).sampler(),
                base_width(n),
                1,
                n as int,
            ).1 {
                Ok(c) => r == Some(c as u64) && 1 <= c < n,
                Err(_) => r is None,
            },
            r matches Some(c) ==> 1 <= c < n,
            n <= 1 ==> r is None,
    {
        if n <= u32::MAX as u64 {
            match self.rng.gen_range_u32(1..(n as u32)) {
                Ok(c) => Some(c as u64),
                Err(_) => None,
            }
        } else {
            match self.rng.gen_range_u64(1..n) {
                Ok(c) => Some(c),
                Err(_) => None,
            }
        }
    }

    /// Finds a divisor of `n` strictly between 1 and `n`.
    ///
    /// The tester is asked once. There is no divisor for `n <= 2` nor
    /// where the tester takes `n` for a prime, and an even `n` gives 2; in
    /// these cases nothing is drawn. Otherwise walks are made, each with a
    /// fresh constant, until one finds a factor; when a draw gives up or
    /// the step limit is reached, trial division takes over.
    #[verifier::loop_isolation(false)]
    fn find_factor(&mut self, n: u64) -> (r: Option<u64>)
        requires
            old(self).extractor_wf(),
        ensures
            final(self).extractor_wf(),
            final(self).source() == old(self).source(),
            final(self).tester().memory() == PT::judge(old(self).tester().memory(), n).0,
            r matches Some(p) ==> 1 < p < n && n % p == 0,
            r is None <==> n <= 2 || verdict(old(self).tester(), n),
            n > 2 && !verdict(old(self).tester(), n) && n % 2 == 0 ==> r == Some(2u64),
            r is None || n % 2 == 0 ==> final(self).sampler() == old(self).sampler(),
    {
        proof {
            if is_prime(n as nat) {
                PT::lemma_accepts_primes(self.primality_tester.memory(), n);
            }
        }
        let judged = if n <= u32::MAX as u64 {
            self.primality_tester.is_prime_u32(&(n as u32))
        } else {
            self.primality_tester.is_prime_u64(&n)
        };
        if judged {
            return None;
        }
        if n <= 2 {
            return None;
        }
        if n % 2 == 0 {
            proof {
                assert(n as nat % 2 == 0);
            }
            return Some(2);
        }
        let mut fuel: u64 = RHO_STEP_LIMIT;
        while fuel > 0
            invariant
                self.extractor_wf(),
                self.source() == old(self).source(),
                self.tester().memory() == PT::judge(old(self).tester().memory(), n).0,
                n >= 3,
            decreases fuel,
        {
            let c = match self.draw_constant(n) {
                Some(c) => c,
                None => {
                    break ;
                },
            };
            match rho_walk(n, c, &mut fuel) {
                Some(d) => {
                    proof {
                        assert(n as nat % (d as nat) == 0);
                    }
                    return Some(d);
                },
                None => {},
            }
        }
        trial_factor(n)
    }

    /// Splits `n` into factors that each pass the primality test.
    ///
    /// The factors 2 are taken out first. The rest is kept on a worklist:
    /// a number from it that has no factor to find is a factor of the
    /// result; for any other, the factor found is split in the same way,
    /// its factors are divided out of the number as often as they go, and
    /// what is left goes back on the worklist.
    #[verifier::loop_isolation(false)]
    fn factorize(&mut self, n: u64) -> (ans: Vec<u64>)
        requires
            old(self).extractor_wf(),
            n >= 1,
        ensures
            final(self).extractor_wf(),
            final(self).source() == old(self).source(),
            exists|questions: Seq<u64>|
                final(self).tester().memory() == #[trigger] asked::<PT>(
                    old(self).tester().memory(),
                    questions,
                ),
            product(factors64(ans@)) == n,
            forall|i: int| 0 <= i < ans@.len() ==> #[trigger] ans@[i] >= 2,
            forall|i: int|
                0 <= i < ans@.len() ==> passes_test::<PT>(
                    old(self).tester().memory(),
                    #[trigger] ans@[i],
                ),
            ans@.len() >= two_exponent(n as nat),
            forall|i: int| 0 <= i < two_exponent(n as nat) ==> #[trigger] ans@[i] == 2,
            forall|i: int| two_exponent(n as nat) <= i < ans@.len() ==> #[trigger] ans@[i] % 2 == 1,
            odd_part(n as nat) == 1 ==> ans@ == twos(two_exponent(n as nat)),
            odd_part(n as nat) == 1 ==> final(self).sampler() == old(self).sampler(),
            odd_part(n as nat) == 1 ==> final(self).tester().memory() == start_memory(*old(self)),
            accepts_odd_part(*old(self), n) ==> ans@ == twos(two_exponent(n as nat)).push(
                odd_part(n as nat) as u64,
            ),
            accepts_odd_part(*old(self), n) ==> final(self).sampler() == old(self).sampler(),
            accepts_odd_part(*old(self), n) ==> final(self).tester().memory() == PT::judge(
                start_memory(*old(self)),
                odd_part(n as nat) as u64,
            ).0,
            rejects_odd_part(*old(self), n) ==> ans@.len() >= two_exponent(n as nat) + 2,
        decreases n,
    {
        let ghost start = old(self).tester().memory();
        let ghost e = two_exponent(n as nat);
        let mut ans: Vec<u64> = Vec::new();
        let mut m: u64 = n;
        assert(factors64(ans@) =~= Seq::<nat>::empty());
        assert(product(factors64(ans@)) * m == n) by {
            assert(product(factors64(ans@)) == 1);
        }
        while m % 2 == 0
            invariant
                1 <= m <= n,
                product(factors64(ans@)) * m == n,
                forall|i: int| 0 <= i < ans@.len() ==> #[trigger] ans@[i] == 2,
                ans@.len() + two_exponent(m as nat) == e,
                odd_part(m as nat) == odd_part(n as nat),
            decreases m,
        {
            proof {
                lemma_take_factor(ans@, m, 2, n);
            }
            ans.push(2);
            m /= 2;
        }
        assert(ans@ =~= twos(e));
        assert(m == odd_part(n as nat));
        proof {
            assert(asked::<PT>(start, Seq::<u64>::empty()) == start);
            lemma_two_is_prime();
        }
        if m == 1 {
            assert(product(factors64(ans@)) * 1 == product(factors64(ans@))) by (nonlinear_arith);
            return ans;
        }
        let ghost accepted = verdict(old(self).tester(), m);
        let ghost mut questions: Seq<u64> = Seq::empty();
        let mut work: Vec<u64> = Vec::new();
        work.push(m);
        while work.len() > 0
            invariant
                self.extractor_wf(),
                self.source() == old(self).source(),
                self.tester().memory() == asked::<PT>(start, questions),
                work@.len() <= 1,
                work@.len() == 1 ==> 2 <= work@[0] <= n && work@[0] % 2 == 1,
                product(factors64(ans@)) * (if work@.len() == 1 {
                    work@[0] as nat
                } else {
                    1
                }) == n,
                forall|i: int| 0 <= i < ans@.len() ==> #[trigger] ans@[i] >= 2,
                forall|i: int| 0 <= i < ans@.len() ==> passes_test::<PT>(start, #[trigger] ans@[i]),
                ans@.len() >= e,
                forall|i: int| 0 <= i < e ==> #[trigger] ans@[i] == 2,
                forall|i: int| e <= i < ans@.len() ==> #[trigger] ans@[i] % 2 == 1,
                accepted ==> if work@.len() == 1 {
                    &&& work@[0] == m
                    &&& ans@ == twos(e)
                    &&& self.sampler() == old(self).sampler()
                    &&& self.tester().memory() == start
                } else {
                    &&& ans@ == twos(e).push(m)
                    &&& self.sampler() == old(self).sampler()
                    &&& self.tester().memory() == PT::judge(start, m).0
                },
                !accepted ==> (work@.len() == 1 && work@[0] == m && ans@.len() == e
                    && self.tester().memory() == start) || ans@.len() + work@.len() >= e + 2,
            decreases
                    (if work@.len() == 1 {
                        work@[0] as int
                    } else {
                        0
                    }),
        {
            let whole = work.pop().unwrap();
            let ghost before = self.tester().memory();
            let ghost sofar = questions;
            let found_factor = self.find_factor(whole);
            proof {
                questions = sofar.push(whole);
                assert(questions.drop_last() =~= sofar);
                assert(self.tester().memory() == asked::<PT>(start, questions));
            }
            match found_factor {
                Some(p) => {
                    let ghost asked_before = questions;
                    let ghost held = self.tester().memory();
                    let found = self.factorize(p);
                    proof {
                        let more = choose|more: Seq<u64>|
                            self.tester().memory() == #[trigger] asked::<PT>(held, more);
                        lemma_asked_on::<PT>(start, asked_before, more);
                        questions = asked_before + more;
                        lemma_odd_factor(whole as nat, p as nat);
                        assert(two_exponent(p as nat) == 0);
                        assert forall|i: int| 0 <= i < found@.len() implies passes_test::<PT>(
                            start,
                            #[trigger] found@[i],
                        ) && found@[i] % 2 == 1 by {
                            lemma_passes_later::<PT>(start, asked_before, found@[i]);
                        }
                    }
                    assert(found@.len() >= 1) by {
                        if found@.len() == 0 {
                            assert(factors64(found@) =~= Seq::<nat>::empty());
                            assert(product(factors64(found@)) == 1);
                        }
                    }
                    let ghost base = ans@;
                    let mut j: usize = 0;
                    while j < found.len()
                        invariant
                            j <= found@.len(),
                            ans@ == base + found@.take(j as int),
                        decreases found@.len() - j,
                    {
                        ans.push(found[j]);
                        j += 1;
                        assert(ans@ =~= base + found@.take(j as int));
                    }
                    let mut x: u64 = whole / p;
                    proof {
                        assert(found@.take(found@.len() as int) =~= found@);
                        assert(factors64(ans@) =~= factors64(base) + factors64(found@));
                        lemma_product_concat(factors64(base), factors64(found@));
                        lemma_cofactor(whole as nat, p as nat);
                        lemma_odd_quotient(whole as nat, p as nat);
                        let before = product(factors64(base));
                        assert((before * p) * x == before * whole) by (nonlinear_arith)
                            requires
                                x * p == whole,
                        ;
                        assert(x < whole) by (nonlinear_arith)
                            requires
                                x * p == whole,
                                p > 1,
                                x >= 1,
                        ;
                        assert(x >= 2) by (nonlinear_arith)
                            requires
                                x * p == whole,
                                p < whole,
                                x >= 1,
                        ;
                    }
                    let ghost longer = ans@.len();
                    let ghost cofactor = x;
                    let mut j: usize = 0;
                    while j < found.len()
                        invariant
                            j <= found@.len(),
                            1 <= x < whole,
                            x % 2 == 1,
                            ans@.len() >= longer,
                            x != cofactor ==> ans@.len() > longer,
                            x <= cofactor,
                            product(factors64(ans@)) * x == n,
                            forall|i: int| 0 <= i < ans@.len() ==> #[trigger] ans@[i] >= 2,
                            forall|i: int|
                                0 <= i < ans@.len() ==> passes_test::<PT>(
                                    start,
                                    #[trigger] ans@[i],
                                ),
                            ans@.len() >= e,
                            forall|i: int| 0 <= i < e ==> #[trigger] ans@[i] == 2,
                            forall|i: int| e <= i < ans@.len() ==> #[trigger] ans@[i] % 2 == 1,
                        decreases found@.len() - j,
                    {
                        let f = found[j];
                        while x % f == 0
                            invariant
                                f == found@[j as int],
                                1 <= x < whole,
                                x % 2 == 1,
                                ans@.len() >= longer,
                                x != cofactor ==> ans@.len() > longer,
                                x <= cofactor,
                                product(factors64(ans@)) * x == n,
                                forall|i: int| 0 <= i < ans@.len() ==> #[trigger] ans@[i] >= 2,
                                forall|i: int|
                                    0 <= i < ans@.len() ==> passes_test::<PT>(
                                        start,
                                        #[trigger] ans@[i],
                                    ),
                                ans@.len() >= e,
                                forall|i: int| 0 <= i < e ==> #[trigger] ans@[i] == 2,
                                forall|i: int| e <= i < ans@.len() ==> #[trigger] ans@[i] % 2 == 1,
                            decreases x,
                        {
                            proof {
                                lemma_take_factor(ans@, x, f, n);
                                lemma_cofactor(x as nat, f as nat);
                                lemma_odd_quotient(x as nat, f as nat);
                                assert(x / f < x) by (nonlinear_arith)
                                    requires
                                        (x / f) * f == x,
                                        f >= 2,
                                        x >= 1,
                                ;
                            }
                            ans.push(f);
                            x /= f;
                        }
                        j += 1;
                    }
                    if x != 1 {
                        work.push(x);
                    } else {
                        assert(product(factors64(ans@)) * 1 == product(factors64(ans@)))
                            by (nonlinear_arith);
                    }
                },
                None => {
                    proof {
                        assert(passes_test::<PT>(start, whole)) by {
                            assert(PT::judge(asked::<PT>(start, sofar), whole).1);
                        }
                        assert(factors64(ans@.push(whole)) =~= factors64(ans@).push(whole as nat));
                        lemma_product_push(factors64(ans@), whole as nat);
                        assert(product(factors64(ans@.push(whole))) * 1 == product(
                            factors64(ans@.push(whole)),
                        )) by (nonlinear_arith);
                    }
                    ans.push(whole);
                },
            }
        }
        ans
    }
}

impl<RNG: Pseudorandom64, PT: PrimalityTest> ExtractPrimeFactors for PollardRho<RNG, PT> {
    closed spec fn extractor_wf(&self) -> bool {
        self.rng.wf() && self.primality_tester.wf()
    }

    /// Splits `n` into factors that each pass the test of the factorizer's
    /// own tester, with multiplicity: first the factors 2, then the odd
    /// factors in the order found. Where the odd part of `n` is 1 or the
    /// tester takes it for a prime, nothing is drawn and the result is the
    /// factors 2 and the odd part. An odd part that the tester takes for a
    /// composite is split into two factors or more.
    fn extract_prime_factors_u32(&mut self, n: &u32) -> (r: Vec<u32>)
        ensures
            final(self).source() == old(self).source(),
            exists|questions: Seq<u64>|
                final(self).tester().memory() == #[trigger] asked::<PT>(
                    old(self).tester().memory(),
                    questions,
                ),
            forall|i: int|
                0 <= i < r@.len() ==> passes_test::<PT>(
                    old(self).tester().memory(),
                    #[trigger] r@[i] as u64,
                ),
            r@.len() >= two_exponent(*n as nat),
            forall|i: int| 0 <= i < two_exponent(*n as nat) ==> #[trigger] r@[i] == 2,
            forall|i: int| two_exponent(*n as nat) <= i < r@.len() ==> #[trigger] r@[i] % 2 == 1,
            odd_part(*n as nat) == 1 ==> r@.len() == two_exponent(*n as nat),
            odd_part(*n as nat) == 1 ==> final(self).sampler() == old(self).sampler(),
            odd_part(*n as nat) == 1 ==> final(self).tester().memory() == start_memory(*old(self)),
            accepts_odd_part(*old(self), *n as u64) ==> r@.len() == two_exponent(*n as nat) + 1,
            accepts_odd_part(*old(self), *n as u64) ==> r@[two_exponent(*n as nat) as int]
                == odd_part(*n as nat),
            accepts_odd_part(*old(self), *n as u64) ==> final(self).sampler() == old(
                self,
            ).sampler(),
            accepts_odd_part(*old(self), *n as u64) ==> final(self).tester().memory() == PT::judge(
                start_memory(*old(self)),
                odd_part(*n as nat) as u64,
            ).0,
            rejects_odd_part(*old(self), *n as u64) ==> r@.len() >= two_exponent(*n as nat) + 2,
    {
        let wide = self.factorize(*n as u64);
        proof {
            lemma_odd_part_at_most(*n as nat);
            assert forall|i: int| 0 <= i < wide@.len() implies #[trigger] wide@[i] <= u32::MAX by {
                assert forall|j: int| 0 <= j < factors64(wide@).len() implies #[trigger] factors64(
                    wide@,
                )[j] >= 1 by {
                    assert(wide@[j] >= 2);
                }
                lemma_factor_at_most_product(factors64(wide@), i);
            }
        }
        narrow_factors(&wide)
    }

    /// Splits `n` into factors that each pass the test of the factorizer's
    /// own tester, with multiplicity: first the factors 2, then the odd
    /// factors in the order found. Where the odd part of `n` is 1 or the
    /// tester takes it for a prime, nothing is drawn and the result is the
    /// factors 2 and the odd part. An odd part that the tester takes for a
    /// composite is split into two factors or more.
    fn extract_prime_factors_u64(&mut self, n: &u64) -> (r: Vec<u64>)
        ensures
            final(self).source() == old(self).source(),
            exists|questions: Seq<u64>|
                final(self).tester().memory() == #[trigger] asked::<PT>(
                    old(self).tester().memory(),
                    questions,
                ),
            forall|i: int|
                0 <= i < r@.len() ==> passes_test::<PT>(
                    old(self).tester().memory(),
                    #[trigger] r@[i],
                ),
            r@.len() >= two_exponent(*n as nat),
            forall|i: int| 0 <= i < two_exponent(*n as nat) ==> #[trigger] r@[i] == 2,
            forall|i: int| two_exponent(*n as nat) <= i < r@.len() ==> #[trigger] r@[i] % 2 == 1,
            odd_part(*n as nat) == 1 ==> r@ == twos(two_exponent(*n as nat)),
            odd_part(*n as nat) == 1 ==> final(self).sampler() == old(self).sampler(),
            odd_part(*n as nat) == 1 ==> final(self).tester().memory() == start_memory(*old(self)),
            accepts_odd_part(*old(self), *n) ==> r@ == twos(two_exponent(*n as nat)).push(
                odd_part(*n as nat) as u64,
            ),
            accepts_odd_part(*old(self), *n) ==> final(self).sampler() == old(self).sampler(),
            accepts_odd_part(*old(self), *n) ==> final(self).tester().memory() == PT::judge(
                start_memory(*old(self)),
                odd_part(*n as nat) as u64,
            ).0,
            rejects_odd_part(*old(self), *n) ==> r@.len() >= two_exponent(*n as nat) + 2,
    {
        self.factorize(*n)
    }

    /// Finds a divisor of `n` strictly between 1 and `n`, asking the
    /// tester once. There is none exactly where `n <= 2` or the tester
    /// takes `n` for a prime, as it does every prime; an even `n` above 2
    /// that the tester rejects gives 2. In these cases nothing is drawn.
    fn extract_factor_u32(&mut self, n: &u32) -> (r: Option<u32>)
        ensures
            final(self).source() == old(self).source(),
            final(self).tester().memory() == PT::judge(
                old(self).tester().memory(),
                *n as u64,
            ).0,
            r is None <==> *n <= 2 || verdict(old(self).tester(), *n as u64),
            *n > 2 && !verdict(old(self).tester(), *n as u64) && *n % 2 == 0 ==> r == Some(2u32),
            r is None || *n % 2 == 0 ==> final(self).sampler() == old(self).sampler(),
    {
        match self.find_factor(*n as u64) {
            Some(p) => Some(p as u32),
            None => None,
        }
    }

    /// Finds a divisor of `n` strictly between 1 and `n`, asking the
    /// tester once. There is none exactly where `n <= 2` or the tester
    /// takes `n` for a prime, as it does every prime; an even `n` above 2
    /// that the tester rejects gives 2. In these cases nothing is drawn.
    fn extract_factor_u64(&mut self, n: &u64) -> (r: Option<u64>)
        ensures
            final(self).source() == old(self).source(),
            final(self).tester().memory() == PT::judge(old(self).tester().memory(), *n).0,
            r is None <==> *n <= 2 || verdict(old(self).tester(), *n),
            *n > 2 && !verdict(old(self).tester(), *n) && *n % 2 == 0 ==> r == Some(2u64),
            r is None || *n % 2 == 0 ==> final(self).sampler() == old(self).sampler(),
    {
        self.find_factor(*n)
    }
}

} // verus!
