//! Divisibility by primes: Euclid's lemma and what it means for trial
//! division.

use vstd::prelude::*;
use vstd::arithmetic::div_mod::{
    lemma_div_decreases, lemma_fundamental_div_mod, lemma_fundamental_div_mod_converse,
    lemma_mod_bound, lemma_mod_multiples_basic, lemma_mul_mod_noop_left, lemma_small_mod,
};
use crate::arith::{abs, is_prime, lemma_multiple_of_multiple, lemma_sum_of_multiples};

use crate::smooth::{
    lemma_exact_quotient_positive, lemma_strip_positive, multiplicity, residue, strip,
};

verus! {

/// Euclid's lemma for a factor below the prime: a prime that divides `a * b`
/// with `0 < a < p` divides `b`.
proof fn lemma_euclid_small(p: int, a: int, b: int)
    requires
        is_prime(p),
        0 < a < p,
        (a * b) % p == 0,
    ensures
        b % p == 0,
    decreases a,
{
    if a == 1 {
        assert(a * b == b) by (nonlinear_arith)
            requires
                a == 1,
        ;
    } else {
        let q = p / a;
        let r = p % a;
        lemma_fundamental_div_mod(p, a);
        lemma_mod_bound(p, a);
        assert(p % a != 0);
        let ab = a * b;
        let pb = b * p;
        assert(r * b == pb + (-q) * ab) by (nonlinear_arith)
            requires
                p == a * q + r,
                ab == a * b,
                pb == b * p,
        ;
        lemma_mod_multiples_basic(b, p);
        lemma_multiple_of_multiple(-q, ab, p);
        lemma_sum_of_multiples(pb, (-q) * ab, p);
        lemma_euclid_small(p, r, b);
    }
}

/// Euclid's lemma: a prime that divides a product divides one of the
/// factors.
pub proof fn lemma_euclid(p: int, a: int, b: int)
    requires
        is_prime(p),
        (a * b) % p == 0,
    ensures
        a % p == 0 || b % p == 0,
{
    if a % p != 0 {
        lemma_mod_bound(a, p);
        lemma_mul_mod_noop_left(a, b, p);
        lemma_euclid_small(p, a % p, b);
    }
}

/// A prime does not divide another prime.
pub proof fn lemma_distinct_primes(p: int, q: int)
    requires
        is_prime(p),
        is_prime(q),
        p != q,
    ensures
        q % p != 0,
{
    if p > q {
        lemma_small_mod(q as nat, p as nat);
    }
}

/// Dividing a number by one prime does not change whether another prime
/// divides it.
proof fn lemma_quotient_keeps_divisibility(v: int, q: int, p: int)
    requires
        is_prime(p),
        is_prime(q),
        p != q,
        v > 0,
        v % q == 0,
    ensures
        (v % p == 0) == ((v / q) % p == 0),
{
    let w = v / q;
    lemma_fundamental_div_mod(v, q);
    assert(v == q * w);
    lemma_distinct_primes(p, q);
    if w % p == 0 {
        lemma_multiple_of_multiple(q, w, p);
    }
    if v % p == 0 {
        lemma_euclid(p, q, w);
    }
}

/// Dividing a number by one prime does not change how often another prime
/// divides it.
proof fn lemma_quotient_keeps_multiplicity(v: int, q: int, p: int)
    requires
        is_prime(p),
        is_prime(q),
        p != q,
        v > 0,
        v % q == 0,
    ensures
        multiplicity(v / q, p) == multiplicity(v, p),
    decreases v,
{
    let w = v / q;
    lemma_quotient_keeps_divisibility(v, q, p);
    lemma_exact_quotient_positive(v, q);
    if v % p == 0 {
        // v = q * w and w = p * t, so v / p = q * t
        let t = w / p;
        lemma_fundamental_div_mod(v, q);
        lemma_fundamental_div_mod(w, p);
        lemma_exact_quotient_positive(v, p);
        lemma_div_decreases(v, p);
        assert(v == p * (q * t)) by (nonlinear_arith)
            requires
                v == q * w,
                w == p * t,
        ;
        lemma_fundamental_div_mod_converse(v, p, q * t, 0);
        assert(v / p == q * t);
        assert(q * t == q * t + 0);
        lemma_fundamental_div_mod_converse(v / p, q, t, 0);
        lemma_quotient_keeps_multiplicity(v / p, q, p);
    }
}

/// Dividing one prime out of a number does not change how often another
/// prime divides it.
proof fn lemma_strip_keeps_multiplicity(v: int, q: int, p: int)
    requires
        is_prime(p),
        is_prime(q),
        p != q,
        v > 0,
    ensures
        multiplicity(strip(v, q), p) == multiplicity(v, p),
    decreases v,
{
    if v % q == 0 {
        lemma_div_decreases(v, q);
        lemma_exact_quotient_positive(v, q);
        lemma_quotient_keeps_multiplicity(v, q, p);
        lemma_strip_keeps_multiplicity(v / q, q, p);
    }
}

/// The factor base consists of primes, none of them twice.
pub open spec fn distinct_primes(fb: Seq<u64>) -> bool {
    &&& forall|i: int| 0 <= i < fb.len() ==> is_prime(#[trigger] fb[i] as int)
    &&& forall|i: int, j: int| 0 <= i < j < fb.len() ==> fb[i] != fb[j]
}

/// Trial division by the primes before it does not change how often a prime
/// of the factor base divides a number.
pub proof fn lemma_residue_keeps_multiplicity(v: int, fb: Seq<u64>, i: int, k: int)
    requires
        distinct_primes(fb),
        0 <= k <= i < fb.len(),
        v > 0,
    ensures
        residue(v, fb, k) > 0,
        multiplicity(residue(v, fb, k), fb[i] as int) == multiplicity(v, fb[i] as int),
    decreases k,
{
    if k > 0 {
        lemma_residue_keeps_multiplicity(v, fb, i, k - 1);
        let before = residue(v, fb, k - 1);
        lemma_strip_positive(before, fb[k - 1] as int);
        lemma_strip_keeps_multiplicity(before, fb[k - 1] as int, fb[i] as int);
    }
}

/// The exponent that trial division finds for a prime of the factor base in
/// `y` is the exponent of that prime in `|y|`.
pub proof fn lemma_trial_division_finds_exponent(y: int, fb: Seq<u64>, i: int)
    requires
        distinct_primes(fb),
        0 <= i < fb.len(),
        y != 0,
    ensures
        multiplicity(residue(abs(y), fb, i), fb[i] as int) == multiplicity(abs(y), fb[i] as int),
{
    lemma_residue_keeps_multiplicity(abs(y), fb, i, i);
}

/// Every number of the factor base is prime.
pub open spec fn all_prime(fb: Seq<u64>) -> bool {
    forall|i: int| 0 <= i < fb.len() ==> is_prime(#[trigger] fb[i] as int)
}

/// The quotient of a product by a divisor of its first factor.
proof fn lemma_quotient_of_product(u: int, v: int, p: int)
    requires
        p > 0,
        u % p == 0,
    ensures
        (u * v) % p == 0,
        (u * v) / p == (u / p) * v,
{
    lemma_fundamental_div_mod(u, p);
    let w = u / p;
    assert(u * v == p * (w * v) + 0) by (nonlinear_arith)
        requires
            u == p * w,
    ;
    lemma_fundamental_div_mod_converse(u * v, p, w * v, 0);
}

/// Dividing a prime out of a product is dividing it out of each factor.
pub proof fn lemma_strip_multiplies(u: int, v: int, p: int)
    requires
        is_prime(p),
        u > 0,
        v > 0,
    ensures
        strip(u * v, p) == strip(u, p) * strip(v, p),
    decreases u + v,
{
    assert(u * v > 0) by (nonlinear_arith)
        requires
            u > 0,
            v > 0,
    ;
    if u % p == 0 {
        lemma_div_decreases(u, p);
        lemma_exact_quotient_positive(u, p);
        lemma_quotient_of_product(u, v, p);
        lemma_strip_multiplies(u / p, v, p);
    } else if v % p == 0 {
        lemma_div_decreases(v, p);
        lemma_exact_quotient_positive(v, p);
        lemma_quotient_of_product(v, u, p);
        assert(v * u == u * v) by (nonlinear_arith);
        assert((v / p) * u == u * (v / p)) by (nonlinear_arith);
        lemma_strip_multiplies(u, v / p, p);
    } else {
        if (u * v) % p == 0 {
            lemma_euclid(p, u, v);
        }
    }
}

/// What trial division leaves of a product is the product of what it leaves
/// of the factors.
pub proof fn lemma_residue_multiplies(u: int, v: int, fb: Seq<u64>, k: int)
    requires
        all_prime(fb),
        u > 0,
        v > 0,
        0 <= k <= fb.len(),
    ensures
        residue(u, fb, k) > 0,
        residue(v, fb, k) > 0,
        residue(u * v, fb, k) == residue(u, fb, k) * residue(v, fb, k),
    decreases k,
{
    if k > 0 {
        lemma_residue_multiplies(u, v, fb, k - 1);
        let p = fb[k - 1] as int;
        lemma_strip_multiplies(residue(u, fb, k - 1), residue(v, fb, k - 1), p);
        lemma_strip_positive(residue(u, fb, k - 1), p);
        lemma_strip_positive(residue(v, fb, k - 1), p);
    }
}

} // verus!
