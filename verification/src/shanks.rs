//! Why the Tonelli-Shanks iteration reaches a root modulo a prime.
//!
//! With `p - 1 = s * 2^e`, the iteration keeps a number `b` whose `2^(r-1)`-th
//! power is 1 and a number `g` whose `2^(r-1)`-th power is -1. Each round
//! lowers `r`, and with `b = 1` the root is found.

use vstd::prelude::*;
use vstd::arithmetic::div_mod::{lemma_mod_bound, lemma_mul_mod_noop};
use vstd::arithmetic::power2::{lemma_pow2_adds, lemma_pow2_unfold, pow2};
use vstd::arithmetic::power::{
    lemma_pow_distributes, lemma_pow_mod_noop, lemma_pow_multiplies, lemma_square_is_pow2, pow,
};
use crate::arith::{is_prime, is_square_mod};
use crate::euler::{
    lemma_euler_of_non_square, lemma_euler_of_square, lemma_square_is_one,
    lemma_square_of_minus_one,
};

verus! {

/// `(a^e1 mod p)^e2 = a^(e1 * e2) (mod p)`.
pub proof fn lemma_power_of_power(a: int, e1: nat, e2: nat, p: int)
    requires
        p > 0,
    ensures
        pow(pow(a, e1) % p, e2) % p == pow(a, e1 * e2) % p,
{
    lemma_pow_mod_noop(pow(a, e1), e2, p);
    lemma_pow_multiplies(a, e1, e2);
}

/// `t` is the `2^k`-th power of `b` modulo `p`.
pub open spec fn is_power(t: int, b: int, k: nat, p: int) -> bool {
    t == pow(b, pow2(k)) % p
}

/// The square of the `2^k`-th power is the `2^(k+1)`-th power.
pub proof fn lemma_square_of_power(t: int, b: int, k: nat, p: int)
    requires
        p > 0,
        is_power(t, b, k, p),
    ensures
        is_power(pow(t, 2) % p, b, k + 1, p),
        is_power((t * t) % p, b, k + 1, p),
{
    lemma_power_of_power(b, pow2(k), 2, p);
    lemma_pow2_unfold(k + 1);
    assert(pow2(k) * 2 == pow2(k + 1));
    lemma_square_is_pow2(t);
}

/// The `2^j`-th power of the `2^k`-th power is the `2^(k+j)`-th power.
pub proof fn lemma_power_of_is_power(t: int, b: int, k: nat, j: nat, p: int)
    requires
        p > 0,
        is_power(t, b, k, p),
    ensures
        is_power(pow(t, pow2(j)) % p, b, k + j, p),
{
    lemma_power_of_power(b, pow2(k), pow2(j), p);
    lemma_pow2_adds(k, j);
}

/// With `p - 1 = s * 2^e` for an odd prime `p`, the exponent `e` is not zero
/// when `s` is odd, and `s * 2^(e-1)` is `(p-1)/2`.
pub proof fn lemma_half_of_order(p: int, s: int, e: nat)
    requires
        p >= 3,
        p % 2 == 1,
        s >= 1,
        p - 1 == s * pow2(e),
        s % 2 == 1,
    ensures
        e >= 1,
        s * pow2((e - 1) as nat) == (p - 1) / 2,
{
    if e == 0 {
        vstd::arithmetic::power2::lemma2_to64();
        assert(s * 1 == s);
    }
    lemma_pow2_unfold(e);
    let half = pow2((e - 1) as nat);
    assert(s * (2 * half) == 2 * (s * half)) by (nonlinear_arith);
}

/// At the start of the iteration, with `b = n^s` for a square `n`, the
/// `2^(e-1)`-th power of `b` is 1.
pub proof fn lemma_start_of_b(n: int, p: int, s: int, e: nat)
    requires
        is_prime(p),
        p >= 3,
        n % p != 0,
        is_square_mod(n, p),
        s >= 1,
        s % 2 == 1,
        p - 1 == s * pow2(e),
    ensures
        e >= 1,
        is_power(1, pow(n, s as nat) % p, (e - 1) as nat, p),
{
    assert(p % 2 != 0);
    lemma_half_of_order(p, s, e);
    lemma_power_of_power(n, s as nat, pow2((e - 1) as nat), p);
    lemma_euler_of_square(n, p);
}

/// At the start of the iteration, with `g = z^s` for a number `z` that is no
/// square, the `2^(e-1)`-th power of `g` is -1.
pub proof fn lemma_start_of_g(z: int, p: int, s: int, e: nat)
    requires
        is_prime(p),
        p >= 3,
        z % p != 0,
        !is_square_mod(z, p),
        s >= 1,
        s % 2 == 1,
        p - 1 == s * pow2(e),
    ensures
        e >= 1,
        is_power(p - 1, pow(z, s as nat) % p, (e - 1) as nat, p),
{
    assert(p % 2 != 0);
    lemma_half_of_order(p, s, e);
    lemma_power_of_power(z, s as nat, pow2((e - 1) as nat), p);
    lemma_euler_of_non_square(z, p);
}

/// Modulo a prime, a power that is not 1 and whose square is 1 is -1.
pub proof fn lemma_power_before_one(b: int, m: nat, p: int)
    requires
        is_prime(p),
        m >= 1,
        is_power(1, b, m, p),
        !is_power(1, b, (m - 1) as nat, p),
    ensures
        is_power(p - 1, b, (m - 1) as nat, p),
{
    let c = pow(b, pow2((m - 1) as nat)) % p;
    lemma_mod_bound(pow(b, pow2((m - 1) as nat)), p);
    lemma_square_of_power(c, b, (m - 1) as nat, p);
    lemma_square_is_one(c, p);
}

/// One round of the iteration, for `g`: with `g' = g^(2^(r-m))`, the
/// `2^(m-1)`-th power of `g'` is the `2^(r-1)`-th power of `g`.
pub proof fn lemma_round_of_g(g: int, next: int, r: nat, m: nat, p: int)
    requires
        p > 0,
        1 <= m < r,
        is_power(next, g, (r - m) as nat, p),
        is_power(p - 1, g, (r - 1) as nat, p),
    ensures
        is_power(p - 1, next, (m - 1) as nat, p),
{
    lemma_power_of_is_power(next, g, (r - m) as nat, (m - 1) as nat, p);
    assert((r - m) as nat + (m - 1) as nat == (r - 1) as nat);
}

/// One round of the iteration, for `b`: the product of two numbers whose
/// `2^(m-1)`-th powers are both -1 has the `2^(m-1)`-th power 1.
pub proof fn lemma_round_of_b(b: int, g: int, m: nat, p: int)
    requires
        p >= 2,
        m >= 1,
        is_power(p - 1, b, (m - 1) as nat, p),
        is_power(p - 1, g, (m - 1) as nat, p),
    ensures
        is_power(1, (b * g) % p, (m - 1) as nat, p),
{
    let e = pow2((m - 1) as nat);
    lemma_pow_mod_noop(b * g, e, p);
    lemma_pow_distributes(b, g, e);
    lemma_mul_mod_noop(pow(b, e), pow(g, e), p);
    lemma_square_of_minus_one(p);
}

} // verus!
