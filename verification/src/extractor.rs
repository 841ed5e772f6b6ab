//! The factor extractor: from a dependency among the relations to a divisor.
//!
//! The relations that a dependency picks multiply to a congruence of two
//! squares. One side is the product of the left-hand values; the other is
//! rebuilt from the roots `A` and from half the exponents that trial division
//! finds in the right-hand values. The greatest common divisor of their
//! difference with the number to factor is the candidate.

use vstd::prelude::*;
use vstd::arithmetic::power::pow;
use rug::Integer;
use crate::arith::{abs, bit, is_gcd};
use crate::big::{
    copy, div_rem, equal, from_i64, from_u64, gcd, less, minus, plus, test_bit, times, val, values,
};
use crate::gf2::non_negative;
use crate::relation::{triple, triples, Relation, Triple};
use crate::sieve::primes_in_range;
use crate::smooth::{lemma_residue_of_zero, multiplicity, residue, strip_counting};

verus! {

/// The product of the left-hand values of the relations that `mask` picks
/// among the first `k`.
pub open spec fn lhs_product(rels: Seq<Triple>, mask: int, k: int) -> int
    decreases k,
{
    if k <= 0 {
        1
    } else if bit(mask, (k - 1) as nat) {
        lhs_product(rels, mask, k - 1) * rels[k - 1].x
    } else {
        lhs_product(rels, mask, k - 1)
    }
}

/// The product of the roots `A` of the relations that `mask` picks among the
/// first `k`.
pub open spec fn root_product(rels: Seq<Triple>, mask: int, k: int) -> int
    decreases k,
{
    if k <= 0 {
        1
    } else if bit(mask, (k - 1) as nat) {
        root_product(rels, mask, k - 1) * rels[k - 1].a
    } else {
        root_product(rels, mask, k - 1)
    }
}

/// How many of the relations that `mask` picks among the first `k` have a
/// negative right-hand value.
pub open spec fn negatives(rels: Seq<Triple>, mask: int, k: int) -> nat
    decreases k,
{
    if k <= 0 {
        0
    } else if bit(mask, (k - 1) as nat) && rels[k - 1].y < 0 {
        negatives(rels, mask, k - 1) + 1
    } else {
        negatives(rels, mask, k - 1)
    }
}

/// The exponent of the prime of index `i` that trial division finds in `y`.
pub open spec fn exponent_in(y: int, fb: Seq<u64>, i: int) -> nat {
    multiplicity(residue(abs(y), fb, i), fb[i] as int)
}

/// The exponent of the prime of index `i` in the product of the right-hand
/// values of the relations that `mask` picks among the first `k`.
pub open spec fn exponent_sum(rels: Seq<Triple>, fb: Seq<u64>, mask: int, i: int, k: int) -> nat
    decreases k,
{
    if k <= 0 {
        0
    } else if bit(mask, (k - 1) as nat) {
        exponent_sum(rels, fb, mask, i, k - 1) + exponent_in(rels[k - 1].y, fb, i)
    } else {
        exponent_sum(rels, fb, mask, i, k - 1)
    }
}

/// The product of the first `end` primes, each raised to half its exponent.
pub open spec fn half_powers(rels: Seq<Triple>, fb: Seq<u64>, mask: int, end: int) -> int
    decreases end,
{
    if end <= 0 {
        1
    } else {
        half_powers(rels, fb, mask, end - 1) * pow(
            fb[end - 1] as int,
            exponent_sum(rels, fb, mask, end - 1, rels.len() as int) / 2,
        )
    }
}

/// `-1` raised to half the number of negative values.
pub open spec fn sign_factor(count: nat) -> int {
    if (count / 2) % 2 == 1 {
        -1
    } else {
        1
    }
}

/// The right-hand side that a mask yields: the roots, the sign, and every
/// prime to half its exponent.
pub open spec fn rhs_value(rels: Seq<Triple>, fb: Seq<u64>, mask: int) -> int {
    root_product(rels, mask, rels.len() as int) * sign_factor(
        negatives(rels, mask, rels.len() as int),
    ) * half_powers(rels, fb, mask, fb.len() as int)
}

/// The number whose common divisor with `n` a mask puts to the test.
pub open spec fn difference(rels: Seq<Triple>, fb: Seq<u64>, mask: int) -> int {
    rhs_value(rels, fb, mask) - lhs_product(rels, mask, rels.len() as int)
}

/// `d` has only a trivial divisor in common with `n`: 1 or `n` itself.
pub open spec fn is_trivial(d: int, n: int) -> bool {
    is_gcd(1, d, n) || is_gcd(n, d, n)
}

/// `g` is a proper divisor of `n` found as the greatest common divisor of
/// `d` and `n`.
pub open spec fn splits(g: int, d: int, n: int) -> bool {
    is_gcd(g, d, n) && g != 1 && g != n
}

/// The first `k` differences have only trivial divisors in common with `n`.
pub open spec fn all_trivial(diffs: Seq<int>, k: int, n: int) -> bool {
    forall|j: int| 0 <= j < k ==> is_trivial(#[trigger] diffs[j], n)
}

/// What [`extract_factor`] returns for the differences that the masks yield:
/// the divisor that the first mask with a proper one gives, or nothing when
/// every mask gives a trivial one.
pub open spec fn is_first_split(r: Option<int>, diffs: Seq<int>, n: int) -> bool {
    match r {
        Some(g) => exists|k: int|
            0 <= k < diffs.len() && splits(g, diffs[k], n) && #[trigger] all_trivial(diffs, k, n),
        None => all_trivial(diffs, diffs.len() as int, n),
    }
}

/// A proper common divisor of anything with `n > 1` lies strictly between 1
/// and `n` and divides `n`.
pub proof fn lemma_split_is_proper(g: int, d: int, n: int)
    requires
        n > 1,
        splits(g, d, n),
    ensures
        1 < g < n,
        n % g == 0,
{
    if g > n {
        vstd::arithmetic::div_mod::lemma_small_mod(n as nat, g as nat);
    }
}

/// `p` raised to the power `e`.
fn power(p: &Integer, e: &Integer) -> (r: Integer)
    requires
        val(*e) >= 0,
    ensures
        val(r) == pow(val(*p), val(*e) as nat),
{
    let one = from_u64(1);
    let mut done = from_u64(0);
    let mut r = from_u64(1);
    proof {
        vstd::arithmetic::power::lemma_pow0(val(*p));
    }
    while less(&done, e)
        invariant
            val(one) == 1,
            0 <= val(done) <= val(*e),
            val(r) == pow(val(*p), val(done) as nat),
        decreases val(*e) - val(done),
    {
        proof {
            vstd::arithmetic::power::lemma_pow_adds(val(*p), val(done) as nat, 1);
            vstd::arithmetic::power::lemma_pow1(val(*p));
        }
        r = times(&r, p);
        done = plus(&done, &one);
    }
    r
}

/// Adds to `exps` the exponents that trial division finds in `y`.
fn add_exponents(y: &Integer, fb: &[u64], exps: &mut Vec<Integer>)
    requires
        primes_in_range(fb@),
        old(exps).len() == fb.len(),
    ensures
        final(exps).len() == fb.len(),
        forall|i: int|
            0 <= i < fb.len() ==> val(#[trigger] final(exps)[i]) == val(old(exps)[i])
                + exponent_in(val(*y), fb@, i),
{
    let zero = from_u64(0);
    if equal(y, &zero) {
        proof {
            assert forall|i: int| 0 <= i < fb.len() implies exponent_in(0, fb@, i) == 0 by {
                lemma_residue_of_zero(fb@, i);
            }
        }
        return ;
    }
    let mut cur = if less(y, &zero) {
        minus(&zero, y)
    } else {
        copy(y)
    };
    let mut i: usize = 0;
    while i < fb.len()
        invariant
            i <= fb.len(),
            primes_in_range(fb@),
            exps.len() == fb.len(),
            val(cur) > 0,
            val(cur) == residue(abs(val(*y)), fb@, i as int),
            forall|k: int|
                0 <= k < i ==> val(#[trigger] exps[k]) == val(old(exps)[k]) + exponent_in(
                    val(*y),
                    fb@,
                    k,
                ),
            forall|k: int| i <= k < fb.len() ==> #[trigger] exps[k] == old(exps)[k],
        decreases fb.len() - i,
    {
        let p = from_u64(fb[i]);
        let (rest, count) = strip_counting(cur, &p);
        cur = rest;
        let sum = plus(&exps[i], &count);
        exps.set(i, sum);
        i = i + 1;
    }
}

/// A vector of `len` zero exponents.
fn zero_exponents(len: usize) -> (exps: Vec<Integer>)
    ensures
        exps.len() == len,
        forall|i: int| 0 <= i < len ==> val(#[trigger] exps[i]) == 0,
{
    let mut exps: Vec<Integer> = Vec::new();
    while exps.len() < len
        invariant
            exps.len() <= len,
            forall|i: int| 0 <= i < exps.len() ==> val(#[trigger] exps[i]) == 0,
        decreases len - exps.len(),
    {
        exps.push(from_u64(0));
    }
    exps
}

/// The product of the primes, each raised to half its exponent.
fn multiply_half_powers(
    fb: &[u64],
    exps: &Vec<Integer>,
    Ghost(rels): Ghost<Seq<Triple>>,
    Ghost(mask): Ghost<int>,
) -> (r: Integer)
    requires
        exps.len() == fb.len(),
        forall|i: int|
            0 <= i < fb.len() ==> val(#[trigger] exps[i]) == exponent_sum(
                rels,
                fb@,
                mask,
                i,
                rels.len() as int,
            ),
    ensures
        val(r) == half_powers(rels, fb@, mask, fb.len() as int),
{
    let two = from_u64(2);
    let mut acc = from_u64(1);
    let mut i: usize = 0;
    while i < fb.len()
        invariant
            i <= fb.len(),
            exps.len() == fb.len(),
            val(two) == 2,
            forall|k: int|
                0 <= k < fb.len() ==> val(#[trigger] exps[k]) == exponent_sum(
                    rels,
                    fb@,
                    mask,
                    k,
                    rels.len() as int,
                ),
            val(acc) == half_powers(rels, fb@, mask, i as int),
        decreases fb.len() - i,
    {
        let p = from_u64(fb[i]);
        let (half, _) = div_rem(&exps[i], &two);
        let factor = power(&p, &half);
        acc = times(&acc, &factor);
        i = i + 1;
    }
    acc
}

/// The two sides that a mask yields: the product of the left-hand values it
/// picks, and the right-hand side rebuilt from roots and half exponents.
pub fn combine(rels: &[Relation], fb: &[u64], mask: &Integer) -> (r: (Integer, Integer))
    requires
        rels.len() <= u32::MAX,
        primes_in_range(fb@),
        val(*mask) >= 0,
    ensures
        val(r.0) == lhs_product(triples(rels@), val(*mask), rels.len() as int),
        val(r.1) == rhs_value(triples(rels@), fb@, val(*mask)),
{
    let ghost all = triples(rels@);
    let zero = from_u64(0);
    let mut lhs = from_u64(1);
    let mut roots = from_u64(1);
    let mut negs: u64 = 0;
    let mut exps = zero_exponents(fb.len());
    let mut j: usize = 0;
    while j < rels.len()
        invariant
            j <= rels.len(),
            rels.len() <= u32::MAX,
            all == triples(rels@),
            primes_in_range(fb@),
            val(*mask) >= 0,
            val(zero) == 0,
            exps.len() == fb.len(),
            val(lhs) == lhs_product(all, val(*mask), j as int),
            val(roots) == root_product(all, val(*mask), j as int),
            negs == negatives(all, val(*mask), j as int),
            negs <= j,
            forall|i: int|
                0 <= i < fb.len() ==> val(#[trigger] exps[i]) == exponent_sum(
                    all,
                    fb@,
                    val(*mask),
                    i,
                    j as int,
                ),
        decreases rels.len() - j,
    {
        assert(all[j as int] == triple(rels[j as int]));
        if test_bit(mask, j as u32) {
            let rel = &rels[j];
            lhs = times(&lhs, &rel.0);
            roots = times(&roots, &rel.1.1);
            if less(&rel.1.0, &zero) {
                negs = negs + 1;
            }
            add_exponents(&rel.1.0, fb, &mut exps);
        }
        j = j + 1;
    }
    let halves = multiply_half_powers(fb, &exps, Ghost(all), Ghost(val(*mask)));
    let sign = if (negs / 2) % 2 == 1 {
        from_i64(-1)
    } else {
        from_i64(1)
    };
    let signed = times(&roots, &sign);
    let rhs = times(&signed, &halves);
    (lhs, rhs)
}

/// The numbers that an optional big integer holds.
pub open spec fn optional_value(r: Option<Integer>) -> Option<int> {
    match r {
        Some(g) => Some(val(g)),
        None => None,
    }
}

/// The differences that the masks yield, in order.
pub open spec fn differences(rels: Seq<Triple>, fb: Seq<u64>, masks: Seq<int>) -> Seq<int> {
    masks.map_values(|mask: int| difference(rels, fb, mask))
}

/// Tries the masks in order and returns the first proper divisor of `n` that
/// one of them yields.
///
/// For each mask the candidate is the greatest common divisor of `n` with the
/// difference of the two sides that the mask yields. A candidate other than 1
/// and `n` is returned at once; it lies strictly between 1 and `n` and
/// divides `n`. When every candidate is 1 or `n`, nothing is returned.
pub fn extract_factor(
    factorbase: &[u64],
    smooths: &[Relation],
    n: &Integer,
    masks: &Vec<Integer>,
) -> (r: Option<Integer>)
    requires
        smooths.len() <= u32::MAX,
        primes_in_range(factorbase@),
        non_negative(values(masks@)),
        val(*n) > 1,
    ensures
        is_first_split(
            optional_value(r),
            differences(triples(smooths@), factorbase@, values(masks@)),
            val(*n),
        ),
        r.is_some() ==> 1 < val(r.unwrap()) < val(*n) && val(*n) % val(r.unwrap()) == 0,
{
    let ghost diffs = differences(triples(smooths@), factorbase@, values(masks@));
    let one = from_u64(1);
    let mut k: usize = 0;
    while k < masks.len()
        invariant
            k <= masks.len(),
            smooths.len() <= u32::MAX,
            primes_in_range(factorbase@),
            non_negative(values(masks@)),
            val(*n) > 1,
            val(one) == 1,
            diffs == differences(triples(smooths@), factorbase@, values(masks@)),
            forall|j: int| 0 <= j < k ==> is_trivial(#[trigger] diffs[j], val(*n)),
        decreases masks.len() - k,
    {
        assert(values(masks@)[k as int] >= 0);
        let (lhs, rhs) = combine(smooths, factorbase, &masks[k]);
        let d = minus(&rhs, &lhs);
        let g = gcd(&d, n);
        assert(val(d) == diffs[k as int]);
        if !equal(&g, &one) && !equal(&g, n) {
            proof {
                assert(diffs.len() == masks.len());
                assert(splits(val(g), diffs[k as int], val(*n)));
                lemma_split_is_proper(val(g), diffs[k as int], val(*n));
                assert(all_trivial(diffs, k as int, val(*n)));
            }
            return Some(g);
        }
        k = k + 1;
    }
    None
}

} // verus!
