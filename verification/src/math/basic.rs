//! Modular arithmetic helpers and greatest common divisors.
use vstd::arithmetic::div_mod::*;
use vstd::arithmetic::mul::*;
use vstd::arithmetic::power::*;
use vstd::prelude::*;

pub mod from_to;

verus! {

/// `d` divides `n`. Zero divides only zero.
pub open spec fn divides(d: nat, n: nat) -> bool {
    if d == 0 {
        n == 0
    } else {
        n % d == 0
    }
}

/// `g` is the greatest common divisor of `a` and `b`: it divides both, and
/// every common divisor divides it. For `a == b == 0` this is `0`.
pub open spec fn is_gcd(a: nat, b: nat, g: nat) -> bool {
    &&& divides(g, a)
    &&& divides(g, b)
    &&& forall|c: nat| divides(c, a) && divides(c, b) ==> #[trigger] divides(c, g)
}

/// `(a + b) mod c` for operands already reduced below `c`.
pub open spec fn add_mod(a: nat, b: nat, c: nat) -> nat {
    if a + b >= c {
        (a + b - c) as nat
    } else {
        a + b
    }
}

/// `(a - b) mod c` for operands already reduced below `c`.
pub open spec fn sub_mod(a: nat, b: nat, c: nat) -> nat {
    if a >= b {
        (a - b) as nat
    } else {
        (a + c - b) as nat
    }
}

/// `a^b mod c`, with the empty product left unreduced.
pub open spec fn pow_mod(a: nat, b: nat, c: nat) -> nat {
    if b == 0 {
        1
    } else {
        (pow(a as int, b) % (c as int)) as nat
    }
}

/// For reduced operands the wrap-around sum is the remainder of the sum.
pub proof fn lemma_add_mod_is_remainder(a: nat, b: nat, c: nat)
    requires
        a < c,
        b < c,
    ensures
        add_mod(a, b, c) == (a + b) % c,
{
    if a + b >= c {
        lemma_fundamental_div_mod_converse((a + b) as int, c as int, 1, (a + b - c) as int);
    } else {
        lemma_small_mod(a + b, c);
    }
}

/// For reduced operands the wrap-around difference is the remainder of the
/// difference.
pub proof fn lemma_sub_mod_is_remainder(a: nat, b: nat, c: nat)
    requires
        a < c,
        b < c,
    ensures
        sub_mod(a, b, c) == (a - b) % (c as int),
{
    if a >= b {
        lemma_small_mod((a - b) as nat, c);
    } else {
        lemma_fundamental_div_mod_converse(a - b, c as int, -1, a + c - b);
    }
}

/// Returns `a + b` reduced once by `c`.
pub fn add_mod_u32(a: &u32, b: &u32, c: &u32) -> (r: u32)
    requires
        *b <= *c,
    ensures
        r == add_mod(*a as nat, *b as nat, *c as nat),
        *a < *c && *b < *c ==> r == (*a + *b) % (*c as int),
{
    proof {
        if *a < *c && *b < *c {
            lemma_add_mod_is_remainder(*a as nat, *b as nat, *c as nat);
        }
    }
    if *a >= *c - *b {
        *a - (*c - *b)
    } else {
        *a + *b
    }
}

/// Returns `a + b` reduced once by `c`.
pub fn add_mod_u64(a: &u64, b: &u64, c: &u64) -> (r: u64)
    requires
        *b <= *c,
    ensures
        r == add_mod(*a as nat, *b as nat, *c as nat),
        *a < *c && *b < *c ==> r == (*a + *b) % (*c as int),
{
    proof {
        if *a < *c && *b < *c {
            lemma_add_mod_is_remainder(*a as nat, *b as nat, *c as nat);
        }
    }
    if *a >= *c - *b {
        *a - (*c - *b)
    } else {
        *a + *b
    }
}

/// Returns `a - b`, lifted once by `c` where it would be negative.
pub fn sub_mod_u32(a: &u32, b: &u32, c: &u32) -> (r: u32)
    requires
        *a < *b ==> *b <= *c,
    ensures
        r == sub_mod(*a as nat, *b as nat, *c as nat),
        *a < *c && *b < *c ==> r == (*a - *b) % (*c as int),
{
    proof {
        if *a < *c && *b < *c {
            lemma_sub_mod_is_remainder(*a as nat, *b as nat, *c as nat);
        }
    }
    if *a >= *b {
        *a - *b
    } else {
        *a + (*c - *b)
    }
}

/// Returns `a - b`, lifted once by `c` where it would be negative.
pub fn sub_mod_u64(a: &u64, b: &u64, c: &u64) -> (r: u64)
    requires
        *a < *b ==> *b <= *c,
    ensures
        r == sub_mod(*a as nat, *b as nat, *c as nat),
        *a < *c && *b < *c ==> r == (*a - *b) % (*c as int),
{
    proof {
        if *a < *c && *b < *c {
            lemma_sub_mod_is_remainder(*a as nat, *b as nat, *c as nat);
        }
    }
    if *a >= *b {
        *a - *b
    } else {
        *a + (*c - *b)
    }
}

/// Returns `(a * b) mod c`, multiplying in twice the width.
pub fn mul_mod_u32(a: &u32, b: &u32, c: &u32) -> (r: u32)
    requires
        *c > 0,
    ensures
        r == (*a * *b) % (*c as int),
{
    proof {
        lemma_mul_upper_bound(*a as int, u32::MAX as int, *b as int, u32::MAX as int);
    }
    let wide: u64 = (*a as u64) * (*b as u64) % (*c as u64);
    wide as u32
}

/// Returns `(a * b) mod c`, multiplying in twice the width.
pub fn mul_mod_u64(a: &u64, b: &u64, c: &u64) -> (r: u64)
    requires
        *c > 0,
    ensures
        r == (*a * *b) % (*c as int),
{
    proof {
        lemma_mul_upper_bound(*a as int, u64::MAX as int, *b as int, u64::MAX as int);
    }
    let wide: u128 = (*a as u128) * (*b as u128) % (*c as u128);
    wide as u64
}

/// One round of square-and-multiply keeps `ans * a^b` fixed modulo `c`.
proof fn lemma_pow_mod_step(ans: int, a: int, b: nat, c: int)
    requires
        b > 0,
        c > 0,
    ensures
        ({
            let next = if b % 2 == 1 {
                (ans * a) % c
            } else {
                ans
            };
            (next * pow((a * a) % c, b / 2)) % c == (ans * pow(a, b)) % c
        }),
{
    let h = b / 2;
    let sq = pow(a * a, h);
    lemma_pow_mod_noop(a * a, h, c);
    lemma_square_is_pow2(a);
    lemma_pow_multiplies(a, 2, h);
    assert(sq == pow(a, 2 * h));
    if b % 2 == 1 {
        assert(pow(a, b) == a * pow(a, (b - 1) as nat)) by {
            reveal(pow);
        }
        assert(b - 1 == 2 * h);
        assert(ans * pow(a, b) == (ans * a) * sq) by {
            lemma_mul_is_associative(ans, a, sq);
        }
        lemma_mul_mod_noop_general(ans * a, sq, c);
        lemma_mul_mod_noop_general((ans * a) % c, pow((a * a) % c, h), c);
        lemma_mod_twice(ans * a, c);
    } else {
        assert(b == 2 * h);
        lemma_mul_mod_noop_general(ans, sq, c);
        lemma_mul_mod_noop_general(ans, pow((a * a) % c, h), c);
    }
}

/// Computes `a^b mod c` by square-and-multiply in `O(log b)` steps, with
/// every product taken in twice the width.
pub fn pow_mod_u32(a: &u32, b: &u32, c: &u32) -> (r: u32)
    requires
        *b > 0 ==> *c > 0,
    ensures
        r == pow_mod(*a as nat, *b as nat, *c as nat),
{
    let mut ans: u64 = 1;
    let mut base: u64 = *a as u64;
    let mut e: u64 = *b as u64;
    let m: u64 = *c as u64;
    proof {
        lemma_pow0(*a as int);
        if *b > 0 {
            lemma_mod_bound(pow(*a as int, *b as nat), m as int);
        }
    }
    while e > 0
        invariant
            *b > 0 ==> m > 0,
            m == *c,
            e <= *b,
            ans <= u32::MAX,
            base <= u32::MAX,
            *b > 0 ==> (ans * pow(base as int, e as nat)) % (m as int) == pow(*a as int, *b as nat)
                % (m as int),
            *b > 0 && e == 0 ==> ans < m,
            *b == 0 ==> ans == 1,
        decreases e,
    {
        proof {
            lemma_pow_mod_step(ans as int, base as int, e as nat, m as int);
            lemma_mul_upper_bound(ans as int, u32::MAX as int, base as int, u32::MAX as int);
            lemma_mul_upper_bound(base as int, u32::MAX as int, base as int, u32::MAX as int);
        }
        if e % 2 == 1 {
            ans = (ans * base) % m;
        }
        base = (base * base) % m;
        e = e / 2;
    }
    proof {
        if *b > 0 {
            lemma_pow0(base as int);
            lemma_small_mod(ans as nat, m as nat);
        }
    }
    ans as u32
}

/// Computes `a^b mod c` by square-and-multiply in `O(log b)` steps, with
/// every product taken in twice the width.
pub fn pow_mod_u64(a: &u64, b: &u64, c: &u64) -> (r: u64)
    requires
        *b > 0 ==> *c > 0,
    ensures
        r == pow_mod(*a as nat, *b as nat, *c as nat),
{
    let mut ans: u128 = 1;
    let mut base: u128 = *a as u128;
    let mut e: u128 = *b as u128;
    let m: u128 = *c as u128;
    proof {
        lemma_pow0(*a as int);
        if *b > 0 {
            lemma_mod_bound(pow(*a as int, *b as nat), m as int);
        }
    }
    while e > 0
        invariant
            *b > 0 ==> m > 0,
            m == *c,
            e <= *b,
            ans <= u64::MAX,
            base <= u64::MAX,
            *b > 0 ==> (ans * pow(base as int, e as nat)) % (m as int) == pow(*a as int, *b as nat)
                % (m as int),
            *b > 0 && e == 0 ==> ans < m,
            *b == 0 ==> ans == 1,
        decreases e,
    {
        proof {
            lemma_pow_mod_step(ans as int, base as int, e as nat, m as int);
            lemma_mul_upper_bound(ans as int, u64::MAX as int, base as int, u64::MAX as int);
            lemma_mul_upper_bound(base as int, u64::MAX as int, base as int, u64::MAX as int);
        }
        if e % 2 == 1 {
            ans = (ans * base) % m;
        }
        base = (base * base) % m;
        e = e / 2;
    }
    proof {
        if *b > 0 {
            lemma_pow0(base as int);
            lemma_small_mod(ans as nat, m as nat);
        }
    }
    ans as u64
}

/// `c` divides both `a` and `b`.
pub open spec fn common_divisor(c: nat, a: nat, b: nat) -> bool {
    divides(c, a) && divides(c, b)
}

/// A Euclidean step keeps the set of common divisors.
proof fn lemma_gcd_step(c: nat, a: nat, b: nat)
    requires
        b > 0,
    ensures
        common_divisor(c, a, b) == common_divisor(c, b, a % b),
{
    if c > 0 && b % c == 0 {
        let q = a / b;
        let k = b / c;
        let r = a % b;
        lemma_fundamental_div_mod(a as int, b as int);
        lemma_fundamental_div_mod(b as int, c as int);
        assert(a == c * (k * q) + r) by (nonlinear_arith)
            requires
                a == b * q + r,
                b == c * k,
        ;
        lemma_mod_multiples_vanish((k * q) as int, r as int, c as int);
    }
}

/// The value that Euclid's algorithm ends on is the greatest common divisor.
proof fn lemma_gcd_end(a0: nat, b0: nat, g: nat)
    requires
        forall|c: nat| #[trigger] common_divisor(c, g, 0) == common_divisor(c, a0, b0),
    ensures
        is_gcd(a0, b0, g),
{
    assert(common_divisor(g, g, 0)) by {
        if g > 0 {
            lemma_mod_self_0(g as int);
        }
    }
    assert forall|c: nat| divides(c, a0) && divides(c, b0) implies #[trigger] divides(c, g) by {
        assert(common_divisor(c, g, 0) == common_divisor(c, a0, b0));
    }
}

/// Computes the greatest common divisor by Euclid's algorithm.
pub fn gcd_u32(a: u32, b: u32) -> (r: u32)
    ensures
        is_gcd(a as nat, b as nat, r as nat),
{
    let mut x: u32 = a;
    let mut y: u32 = b;
    while y > 0
        invariant
            forall|c: nat| #[trigger]
                common_divisor(c, x as nat, y as nat) == common_divisor(c, a as nat, b as nat),
        decreases y,
    {
        proof {
            assert forall|c: nat| #[trigger]
                common_divisor(c, y as nat, (x % y) as nat) == common_divisor(
                    c,
                    a as nat,
                    b as nat,
                ) by {
                lemma_gcd_step(c, x as nat, y as nat);
                assert(common_divisor(c, x as nat, y as nat) == common_divisor(
                    c,
                    a as nat,
                    b as nat,
                ));
            }
        }
        x %= y;
        core::mem::swap(&mut x, &mut y);
    }
    proof {
        lemma_gcd_end(a as nat, b as nat, x as nat);
    }
    x
}

/// Computes the greatest common divisor by Euclid's algorithm.
pub fn gcd_u64(a: u64, b: u64) -> (r: u64)
    ensures
        is_gcd(a as nat, b as nat, r as nat),
{
    let mut x: u64 = a;
    let mut y: u64 = b;
    while y > 0
        invariant
            forall|c: nat| #[trigger]
                common_divisor(c, x as nat, y as nat) == common_divisor(c, a as nat, b as nat),
        decreases y,
    {
        proof {
            assert forall|c: nat| #[trigger]
                common_divisor(c, y as nat, (x % y) as nat) == common_divisor(
                    c,
                    a as nat,
                    b as nat,
                ) by {
                lemma_gcd_step(c, x as nat, y as nat);
                assert(common_divisor(c, x as nat, y as nat) == common_divisor(
                    c,
                    a as nat,
                    b as nat,
                ));
            }
        }
        x %= y;
        core::mem::swap(&mut x, &mut y);
    }
    proof {
        lemma_gcd_end(a as nat, b as nat, x as nat);
    }
    x
}

/// Computes the greatest common divisor by Euclid's algorithm.
pub fn gcd_u128(a: u128, b: u128) -> (r: u128)
    ensures
        is_gcd(a as nat, b as nat, r as nat),
{
    let mut x: u128 = a;
    let mut y: u128 = b;
    while y > 0
        invariant
            forall|c: nat| #[trigger]
                common_divisor(c, x as nat, y as nat) == common_divisor(c, a as nat, b as nat),
        decreases y,
    {
        proof {
            assert forall|c: nat| #[trigger]
                common_divisor(c, y as nat, (x % y) as nat) == common_divisor(
                    c,
                    a as nat,
                    b as nat,
                ) by {
                lemma_gcd_step(c, x as nat, y as nat);
                assert(common_divisor(c, x as nat, y as nat) == common_divisor(
                    c,
                    a as nat,
                    b as nat,
                ));
            }
        }
        x %= y;
        core::mem::swap(&mut x, &mut y);
    }
    proof {
        lemma_gcd_end(a as nat, b as nat, x as nat);
    }
    x
}

} // verus!
