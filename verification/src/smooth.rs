//! Trial division over the factor base.

use vstd::prelude::*;
use vstd::arithmetic::div_mod::{lemma_div_decreases, lemma_fundamental_div_mod};
use vstd::arithmetic::power::{lemma_pow0, lemma_pow1, lemma_pow_adds, pow};
use rug::Integer;
use crate::big::{div_rem, equal, from_u64, plus, val};
use crate::sieve::primes_in_range;

verus! {

/// `v` with every factor `p` divided out. Zero and negative numbers are left
/// as they are.
pub open spec fn strip(v: int, p: int) -> int
    decreases v,
    via strip_decreases
{
    if p >= 2 && v > 0 && v % p == 0 {
        strip(v / p, p)
    } else {
        v
    }
}

#[via_fn]
proof fn strip_decreases(v: int, p: int) {
    if p >= 2 && v > 0 && v % p == 0 {
        lemma_div_decreases(v, p);
        lemma_exact_quotient_positive(v, p);
    }
}

/// An exact quotient of a positive number by a positive number is positive.
pub proof fn lemma_exact_quotient_positive(v: int, p: int)
    requires
        v > 0,
        p > 0,
        v % p == 0,
    ensures
        v / p > 0,
{
    lemma_fundamental_div_mod(v, p);
    let q = v / p;
    assert(q > 0) by (nonlinear_arith)
        requires
            v == p * q,
            v > 0,
            p > 0,
    ;
}

/// What is left of `v` once the first `k` primes of the factor base have been
/// divided out, each as often as it goes.
pub open spec fn residue(v: int, fb: Seq<u64>, k: int) -> int
    decreases k,
{
    if k <= 0 {
        v
    } else {
        strip(residue(v, fb, k - 1), fb[k - 1] as int)
    }
}

/// Trial division leaves zero as it is.
pub proof fn lemma_residue_of_zero(fb: Seq<u64>, k: int)
    ensures
        residue(0, fb, k) == 0,
    decreases k,
{
    if k > 0 {
        lemma_residue_of_zero(fb, k - 1);
    }
}

/// Stripping keeps a positive number positive.
pub proof fn lemma_strip_positive(v: int, p: int)
    requires
        v > 0,
    ensures
        strip(v, p) > 0,
    decreases v,
{
    if p >= 2 && v % p == 0 {
        lemma_div_decreases(v, p);
        lemma_exact_quotient_positive(v, p);
        lemma_strip_positive(v / p, p);
    }
}

/// A positive number is what is left of it without the factor `p`, times `p`
/// to the power of its exponent.
pub proof fn lemma_strip_factorization(v: int, p: int)
    requires
        v > 0,
        p >= 2,
    ensures
        v == strip(v, p) * pow(p, multiplicity(v, p)),
    decreases v,
{
    if v % p == 0 {
        lemma_div_decreases(v, p);
        lemma_exact_quotient_positive(v, p);
        lemma_fundamental_div_mod(v, p);
        let w = v / p;
        let m = multiplicity(w, p);
        lemma_strip_factorization(w, p);
        lemma_pow_adds(p, 1, m);
        lemma_pow1(p);
        let s = strip(w, p);
        let t = pow(p, m);
        assert(p * (s * t) == s * (p * t)) by (nonlinear_arith);
    } else {
        lemma_pow0(p);
    }
}

/// Divides `p` out of a positive `v` until it no longer goes.
pub fn strip_factor(v: Integer, p: &Integer) -> (r: Integer)
    requires
        val(v) > 0,
        val(*p) >= 2,
    ensures
        val(r) == strip(val(v), val(*p)),
        val(r) > 0,
{
    let zero = from_u64(0);
    let mut cur = v;
    loop
        invariant
            val(zero) == 0,
            val(*p) >= 2,
            val(cur) > 0,
            strip(val(cur), val(*p)) == strip(val(v), val(*p)),
        ensures
            val(cur) == strip(val(v), val(*p)),
        decreases val(cur),
    {
        let (q, rem) = div_rem(&cur, p);
        if !equal(&rem, &zero) {
            break ;
        }
        proof {
            lemma_div_decreases(val(cur), val(*p));
            lemma_exact_quotient_positive(val(cur), val(*p));
        }
        cur = q;
    }
    cur
}

/// How often `p` divides `v`: the exponent of `p` in a positive `v`.
pub open spec fn multiplicity(v: int, p: int) -> nat
    decreases v,
    via multiplicity_decreases
{
    if p >= 2 && v > 0 && v % p == 0 {
        1 + multiplicity(v / p, p)
    } else {
        0
    }
}

#[via_fn]
proof fn multiplicity_decreases(v: int, p: int) {
    if p >= 2 && v > 0 && v % p == 0 {
        lemma_div_decreases(v, p);
        lemma_exact_quotient_positive(v, p);
    }
}

/// Divides `p` out of a positive `v` until it no longer goes, and counts the
/// divisions.
pub fn strip_counting(v: Integer, p: &Integer) -> (r: (Integer, Integer))
    requires
        val(v) > 0,
        val(*p) >= 2,
    ensures
        val(r.0) == strip(val(v), val(*p)),
        val(r.0) > 0,
        val(r.1) == multiplicity(val(v), val(*p)),
{
    let zero = from_u64(0);
    let one = from_u64(1);
    let mut cur = v;
    let mut count = from_u64(0);
    loop
        invariant
            val(zero) == 0,
            val(one) == 1,
            val(*p) >= 2,
            val(cur) > 0,
            val(count) >= 0,
            strip(val(cur), val(*p)) == strip(val(v), val(*p)),
            val(count) + multiplicity(val(cur), val(*p)) == multiplicity(val(v), val(*p)),
        ensures
            val(cur) == strip(val(v), val(*p)),
            val(count) == multiplicity(val(v), val(*p)),
        decreases val(cur),
    {
        let (q, rem) = div_rem(&cur, p);
        if !equal(&rem, &zero) {
            break ;
        }
        proof {
            lemma_div_decreases(val(cur), val(*p));
            lemma_exact_quotient_positive(val(cur), val(*p));
        }
        cur = q;
        count = plus(&count, &one);
    }
    (cur, count)
}

/// Divides every prime of the factor base out of a positive `v`.
pub fn trial_divide(v: Integer, fb: &Vec<u64>) -> (r: Integer)
    requires
        val(v) > 0,
        primes_in_range(fb@),
    ensures
        val(r) == residue(val(v), fb@, fb.len() as int),
        val(r) > 0,
{
    let ghost start = val(v);
    let mut cur = v;
    let mut i: usize = 0;
    while i < fb.len()
        invariant
            i <= fb.len(),
            primes_in_range(fb@),
            val(cur) > 0,
            val(cur) == residue(start, fb@, i as int),
        decreases fb.len() - i,
    {
        let p = from_u64(fb[i]);
        cur = strip_factor(cur, &p);
        i = i + 1;
    }
    cur
}

} // verus!
