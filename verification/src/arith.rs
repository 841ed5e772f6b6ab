//! Number-theoretic vocabulary shared by the contracts of this crate.

use vstd::prelude::*;
use vstd::arithmetic::div_mod::{lemma_fundamental_div_mod, lemma_mod_multiples_basic};
use vstd::arithmetic::power2::pow2;

verus! {

/// `p` is a prime number.
pub open spec fn is_prime(p: int) -> bool {
    p >= 2 && forall|d: int| 2 <= d < p ==> #[trigger] (p % d) != 0
}

/// `x * x`, the term on which the quantifiers about squares trigger.
pub open spec fn square(x: int) -> int {
    x * x
}

/// `r` is a square root of `n` modulo `p`.
pub open spec fn is_sqrt_mod(r: int, n: int, p: int) -> bool {
    0 <= r < p && square(r) % p == n % p
}

/// `n` has a square root modulo `p`.
pub open spec fn is_square_mod(n: int, p: int) -> bool {
    exists|x: int| #[trigger] is_sqrt_mod(x, n, p)
}

/// The Legendre symbol `(a|p)` of an odd prime `p`: 0 when `p` divides `a`,
/// 1 when `a` is a non-zero square modulo `p`, and -1 otherwise.
pub open spec fn legendre_symbol(a: int, p: int) -> int {
    if a % p == 0 {
        0
    } else if is_square_mod(a, p) {
        1
    } else {
        -1
    }
}

/// `a` and `m` have no common divisor above 1.
pub open spec fn coprime(a: int, m: int) -> bool {
    forall|d: int| d > 1 ==> !(#[trigger] (a % d) == 0 && m % d == 0)
}

/// `g` is the greatest common divisor of `a` and `b`, with `gcd(0, 0) = 0`.
pub open spec fn is_gcd(g: int, a: int, b: int) -> bool {
    if a == 0 && b == 0 {
        g == 0
    } else {
        &&& g > 0
        &&& a % g == 0
        &&& b % g == 0
        &&& forall|d: int| d > 0 && #[trigger] (a % d) == 0 && b % d == 0 ==> d <= g
    }
}

/// Bit `i` of the binary expansion of a non-negative `v`.
pub open spec fn bit(v: int, i: nat) -> bool {
    (v / (pow2(i) as int)) % 2 == 1
}

/// Absolute value.
pub open spec fn abs(v: int) -> int {
    if v < 0 {
        -v
    } else {
        v
    }
}

/// A multiple of a multiple of `n` is a multiple of `n`.
pub proof fn lemma_multiple_of_multiple(k: int, m: int, n: int)
    requires
        n > 0,
        m % n == 0,
    ensures
        (k * m) % n == 0,
{
    lemma_fundamental_div_mod(m, n);
    let q = m / n;
    assert(k * m == (k * q) * n) by (nonlinear_arith)
        requires
            m == n * q,
    ;
    lemma_mod_multiples_basic(k * q, n);
}

/// The sum of two multiples of `n` is a multiple of `n`.
pub proof fn lemma_sum_of_multiples(u: int, v: int, n: int)
    requires
        n > 0,
        u % n == 0,
        v % n == 0,
    ensures
        (u + v) % n == 0,
{
    lemma_fundamental_div_mod(u, n);
    lemma_fundamental_div_mod(v, n);
    let q = u / n + v / n;
    assert(u + v == q * n) by (nonlinear_arith)
        requires
            u == n * (u / n),
            v == n * (v / n),
            q == u / n + v / n,
    ;
    lemma_mod_multiples_basic(q, n);
}

/// From `u = v` and `s = t` modulo `n` follows `u s = v t`.
pub proof fn lemma_congruent_products(u: int, v: int, s: int, t: int, n: int)
    requires
        n > 0,
        (u - v) % n == 0,
        (s - t) % n == 0,
    ensures
        (u * s - v * t) % n == 0,
{
    lemma_multiple_of_multiple(u, s - t, n);
    lemma_multiple_of_multiple(t, u - v, n);
    lemma_sum_of_multiples(u * (s - t), t * (u - v), n);
    assert(u * (s - t) + t * (u - v) == u * s - v * t) by (nonlinear_arith);
}

/// A product is a multiple of each of its factors, and its quotient by one
/// is the other.
pub proof fn lemma_exact_quotient(d: int, q: int)
    requires
        d > 0,
    ensures
        (d * q) % d == 0,
        (d * q) / d == q,
{
    vstd::arithmetic::div_mod::lemma_mod_multiples_basic(q, d);
    vstd::arithmetic::div_mod::lemma_div_multiples_vanish(q, d);
    assert(d * q == q * d) by (nonlinear_arith);
}

/// What divides the absolute value of a number divides the number.
pub proof fn lemma_divides_signed(y: int, d: int)
    requires
        d > 0,
        abs(y) % d == 0,
    ensures
        y % d == 0,
{
    if y < 0 {
        lemma_multiple_of_multiple(-1, abs(y), d);
        assert(-1 * abs(y) == y);
    }
}

/// The absolute value and the sign of a product of two numbers other than
/// zero.
pub proof fn lemma_abs_of_product(u: int, v: int)
    requires
        u != 0,
        v != 0,
    ensures
        u * v != 0,
        abs(u * v) == abs(u) * abs(v),
        (u * v < 0) == ((u < 0) != (v < 0)),
{
    assert(u * v != 0 && abs(u * v) == abs(u) * abs(v) && (u * v < 0) == ((u < 0) != (v < 0)))
        by (nonlinear_arith)
        requires
            u != 0,
            v != 0,
    ;
}

/// `r` is the square root of `v` rounded down.
pub open spec fn is_floor_sqrt(r: int, v: int) -> bool {
    r >= 0 && r * r <= v < (r + 1) * (r + 1)
}

/// The square root of `v` rounded down.
pub open spec fn floor_sqrt(v: int) -> int
    decreases v,
{
    if v <= 0 {
        0
    } else {
        let r = floor_sqrt(v - 1);
        if (r + 1) * (r + 1) <= v {
            r + 1
        } else {
            r
        }
    }
}

/// `floor_sqrt` is the square root rounded down.
pub proof fn lemma_floor_sqrt(v: int)
    requires
        v >= 0,
    ensures
        is_floor_sqrt(floor_sqrt(v), v),
    decreases v,
{
    if v > 0 {
        lemma_floor_sqrt(v - 1);
        let r = floor_sqrt(v - 1);
        assert((r + 2) * (r + 2) > (r + 1) * (r + 1)) by (nonlinear_arith)
            requires
                r >= 0,
        ;
    }
}

/// Only one number is the square root of `v` rounded down.
pub proof fn lemma_floor_sqrt_unique(r: int, s: int, v: int)
    requires
        is_floor_sqrt(r, v),
        is_floor_sqrt(s, v),
    ensures
        r == s,
{
    if r < s {
        assert((r + 1) * (r + 1) <= s * s) by (nonlinear_arith)
            requires
                0 <= r,
                r + 1 <= s,
        ;
    } else if s < r {
        assert((s + 1) * (s + 1) <= r * r) by (nonlinear_arith)
            requires
                0 <= s,
                s + 1 <= r,
        ;
    }
}

} // verus!
