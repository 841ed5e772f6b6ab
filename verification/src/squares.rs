//! Why a dependency yields a congruence of squares.
//!
//! When every relation that a dependency picks satisfies the relation
//! invariant and factors completely over the factor base, the product of the
//! left-hand values and the right-hand side that the extractor rebuilds have
//! the same square modulo `n`.

use vstd::prelude::*;
use vstd::arithmetic::power::{lemma_pow0, lemma_pow_adds, pow};
use crate::algebra::{is_dependency, lemma_parity_row_bits, odd_exponent, parity_row, parity_rows};
use crate::arith::{abs, bit, lemma_abs_of_product, lemma_congruent_products};
use crate::extractor::{
    exponent_in, exponent_sum, half_powers, lhs_product, negatives, rhs_value, root_product,
    sign_factor,
};
use crate::gf2::{combo_bit, picks, sum_bit, term};
use crate::relation::{Triple};
use crate::sieve::primes_in_range;
use crate::smooth::{
    lemma_strip_factorization, lemma_strip_positive, multiplicity, residue, strip,
};

verus! {

/// The product of the first `k` primes, each raised to its exponent in
/// `exps`.
pub open spec fn power_product(fb: Seq<u64>, exps: Seq<nat>, k: int) -> int
    decreases k,
{
    if k <= 0 {
        1
    } else {
        power_product(fb, exps, k - 1) * pow(fb[k - 1] as int, exps[k - 1])
    }
}

/// The exponents that trial division finds in `v`, prime by prime.
pub open spec fn exponents_of(v: int, fb: Seq<u64>) -> Seq<nat> {
    Seq::new(fb.len(), |i: int| multiplicity(residue(v, fb, i), fb[i] as int))
}

/// A positive number is what trial division leaves of it, times the primes
/// of the factor base raised to the exponents that trial division finds.
pub proof fn lemma_trial_division_factorization(v: int, fb: Seq<u64>, k: int)
    requires
        v > 0,
        primes_in_range(fb),
        0 <= k <= fb.len(),
    ensures
        residue(v, fb, k) > 0,
        v == residue(v, fb, k) * power_product(fb, exponents_of(v, fb), k),
    decreases k,
{
    if k > 0 {
        lemma_trial_division_factorization(v, fb, k - 1);
        let before = residue(v, fb, k - 1);
        let p = fb[k - 1] as int;
        let e = multiplicity(before, p);
        lemma_strip_positive(before, p);
        lemma_strip_factorization(before, p);
        let after = strip(before, p);
        let rest = power_product(fb, exponents_of(v, fb), k - 1);
        let power = pow(p, e);
        assert(exponents_of(v, fb)[k - 1] == e);
        assert((after * power) * rest == after * (rest * power)) by (nonlinear_arith);
    } else {
        assert(v * 1 == v);
    }
}

/// The sums of two lists of exponents, prime by prime.
pub open spec fn added(e1: Seq<nat>, e2: Seq<nat>) -> Seq<nat> {
    Seq::new(e1.len(), |i: int| e1[i] + e2[i])
}

/// The product of two products of prime powers is the product with the
/// exponents added.
pub proof fn lemma_power_products_multiply(fb: Seq<u64>, e1: Seq<nat>, e2: Seq<nat>, k: int)
    requires
        0 <= k <= fb.len(),
        e1.len() == fb.len(),
        e2.len() == fb.len(),
    ensures
        power_product(fb, e1, k) * power_product(fb, e2, k) == power_product(
            fb,
            added(e1, e2),
            k,
        ),
    decreases k,
{
    if k > 0 {
        lemma_power_products_multiply(fb, e1, e2, k - 1);
        let p = fb[k - 1] as int;
        lemma_pow_adds(p, e1[k - 1], e2[k - 1]);
        let a = power_product(fb, e1, k - 1);
        let b = power_product(fb, e2, k - 1);
        let x = pow(p, e1[k - 1]);
        let y = pow(p, e2[k - 1]);
        assert((a * x) * (b * y) == (a * b) * (x * y)) by (nonlinear_arith);
        assert(added(e1, e2)[k - 1] == e1[k - 1] + e2[k - 1]);
    } else {
        assert(1 * 1 == 1);
    }
}

/// A product of prime powers depends only on the exponents of the primes
/// that it takes in.
pub proof fn lemma_power_product_of_equal(fb: Seq<u64>, e1: Seq<nat>, e2: Seq<nat>, k: int)
    requires
        0 <= k <= fb.len(),
        k <= e1.len(),
        k <= e2.len(),
        forall|i: int| 0 <= i < k ==> e1[i] == e2[i],
    ensures
        power_product(fb, e1, k) == power_product(fb, e2, k),
    decreases k,
{
    if k > 0 {
        lemma_power_product_of_equal(fb, e1, e2, k - 1);
    }
}

/// With even exponents, the product of prime powers is the square of the
/// product with the exponents halved.
pub proof fn lemma_even_power_product_is_square(fb: Seq<u64>, exps: Seq<nat>, k: int)
    requires
        0 <= k <= fb.len(),
        exps.len() == fb.len(),
        forall|i: int| 0 <= i < fb.len() ==> #[trigger] exps[i] % 2 == 0,
    ensures
        power_product(fb, exps, k) == power_product(fb, halved(exps), k) * power_product(
            fb,
            halved(exps),
            k,
        ),
{
    let half = halved(exps);
    lemma_power_products_multiply(fb, half, half, k);
    assert forall|i: int| 0 <= i < k implies added(half, half)[i] == exps[i] by {
        assert(exps[i] % 2 == 0);
    }
    lemma_power_product_of_equal(fb, added(half, half), exps, k);
}

/// Half of each exponent of a list.
pub open spec fn halved(exps: Seq<nat>) -> Seq<nat> {
    Seq::new(exps.len(), |i: int| exps[i] / 2)
}

/// The exponent of each prime in the product of the right-hand values of the
/// relations that `mask` picks among the first `j`.
pub open spec fn exponent_sums(rels: Seq<Triple>, fb: Seq<u64>, mask: int, j: int) -> Seq<nat> {
    Seq::new(fb.len(), |i: int| exponent_sum(rels, fb, mask, i, j))
}

/// The product of the primes raised to half their exponents, as the
/// extractor computes it, is a product of prime powers.
pub proof fn lemma_half_powers_is_power_product(rels: Seq<Triple>, fb: Seq<u64>, mask: int, k: int)
    requires
        0 <= k <= fb.len(),
    ensures
        half_powers(rels, fb, mask, k) == power_product(
            fb,
            halved(exponent_sums(rels, fb, mask, rels.len() as int)),
            k,
        ),
    decreases k,
{
    if k > 0 {
        lemma_half_powers_is_power_product(rels, fb, mask, k - 1);
        let exps = exponent_sums(rels, fb, mask, rels.len() as int);
        assert(halved(exps)[k - 1] == exps[k - 1] / 2);
        assert(exps[k - 1] == exponent_sum(rels, fb, mask, k - 1, rels.len() as int));
    }
}

/// The product of the right-hand values of the relations that `mask` picks
/// among the first `j`.
pub open spec fn rhs_product(rels: Seq<Triple>, mask: int, j: int) -> int
    decreases j,
{
    if j <= 0 {
        1
    } else if bit(mask, (j - 1) as nat) {
        rhs_product(rels, mask, j - 1) * rels[j - 1].y
    } else {
        rhs_product(rels, mask, j - 1)
    }
}

/// The product of the cofactors of the relations that `mask` picks among the
/// first `j`.
pub open spec fn cofactor_product(cofactors: Seq<int>, mask: int, j: int) -> int
    decreases j,
{
    if j <= 0 {
        1
    } else if bit(mask, (j - 1) as nat) {
        cofactor_product(cofactors, mask, j - 1) * cofactors[j - 1]
    } else {
        cofactor_product(cofactors, mask, j - 1)
    }
}

/// Every relation that `mask` picks is accounted for with its cofactor.
pub open spec fn picks_accounted(
    rels: Seq<Triple>,
    fb: Seq<u64>,
    mask: int,
    n: int,
    cofactors: Seq<int>,
) -> bool {
    &&& cofactors.len() == rels.len()
    &&& forall|j: int|
        0 <= j < rels.len() && #[trigger] bit(mask, j as nat) ==> rels[j].accounted(
            fb,
            n,
            cofactors[j],
        )
}

/// A product of primes that are all raised to the power zero is 1.
proof fn lemma_power_product_of_ones(fb: Seq<u64>, exps: Seq<nat>, k: int)
    requires
        0 <= k <= fb.len(),
        exps.len() == fb.len(),
        forall|i: int| 0 <= i < fb.len() ==> #[trigger] exps[i] == 0,
    ensures
        power_product(fb, exps, k) == 1,
    decreases k,
{
    if k > 0 {
        lemma_power_product_of_ones(fb, exps, k - 1);
        lemma_pow0(fb[k - 1] as int);
        assert(exps[k - 1] == 0);
    }
}

/// Regrouping the factors of a product of two numbers that are each a
/// square times a product of prime powers.
proof fn lemma_regroup(c0: int, e0: int, c: int, e: int)
    ensures
        ((c0 * c0) * e0) * ((c * c) * e) == ((c0 * c) * (c0 * c)) * (e0 * e),
{
    let cc0 = c0 * c0;
    let cc = c * c;
    assert((cc0 * e0) * (cc * e) == (cc0 * cc) * (e0 * e)) by (nonlinear_arith);
    assert((c0 * c) * (c0 * c) == cc0 * cc) by (nonlinear_arith)
        requires
            cc0 == c0 * c0,
            cc == c * c,
    ;
}

/// The product of the right-hand values that a mask picks is, up to its
/// sign, the square of the product of the cofactors times the product of the
/// primes raised to the sums of their exponents; it is negative when an odd
/// number of the values is.
pub proof fn lemma_rhs_product_factorization(
    rels: Seq<Triple>,
    fb: Seq<u64>,
    mask: int,
    n: int,
    cofactors: Seq<int>,
    j: int,
)
    requires
        primes_in_range(fb),
        picks_accounted(rels, fb, mask, n, cofactors),
        0 <= j <= rels.len(),
    ensures
        rhs_product(rels, mask, j) != 0,
        cofactor_product(cofactors, mask, j) >= 1,
        abs(rhs_product(rels, mask, j)) == (cofactor_product(cofactors, mask, j)
            * cofactor_product(cofactors, mask, j)) * power_product(
            fb,
            exponent_sums(rels, fb, mask, j),
            fb.len() as int,
        ),
        (rhs_product(rels, mask, j) < 0) == (negatives(rels, mask, j) % 2 == 1),
    decreases j,
{
    let k = fb.len() as int;
    if j == 0 {
        lemma_power_product_of_ones(fb, exponent_sums(rels, fb, mask, 0), k);
        assert((1 * 1) * 1 == 1);
    } else {
        lemma_rhs_product_factorization(rels, fb, mask, n, cofactors, j - 1);
        let before = exponent_sums(rels, fb, mask, j - 1);
        let after = exponent_sums(rels, fb, mask, j);
        if bit(mask, (j - 1) as nat) {
            let y = rels[j - 1].y;
            let c = cofactors[j - 1];
            let c0 = cofactor_product(cofactors, mask, j - 1);
            let so_far = rhs_product(rels, mask, j - 1);
            assert(rels[j - 1].accounted(fb, n, c));
            lemma_abs_of_product(so_far, y);
            lemma_trial_division_factorization(abs(y), fb, k);
            let own = exponents_of(abs(y), fb);
            lemma_power_products_multiply(fb, before, own, k);
            assert forall|i: int| 0 <= i < k implies added(before, own)[i] == after[i] by {
                assert(own[i] == exponent_in(y, fb, i));
            }
            lemma_power_product_of_equal(fb, added(before, own), after, k);
            lemma_regroup(c0, power_product(fb, before, k), c, power_product(fb, own, k));
            assert(c0 * c >= 1) by (nonlinear_arith)
                requires
                    c0 >= 1,
                    c >= 1,
            ;
        } else {
            lemma_power_product_of_equal(fb, before, after, k);
        }
    }
}

/// Column 0 of the sum of the exponent-parity vectors that a mask picks
/// tells whether an odd number of the values picked is negative.
pub proof fn lemma_sign_column_is_parity(rels: Seq<Triple>, fb: Seq<u64>, mask: int, j: int)
    requires
        0 <= j <= rels.len(),
    ensures
        sum_bit(parity_rows(rels, fb), picks(mask, rels.len()), 0, j) == (negatives(rels, mask, j)
            % 2 == 1),
    decreases j,
{
    if j > 0 {
        lemma_sign_column_is_parity(rels, fb, mask, j - 1);
        let rows = parity_rows(rels, fb);
        let sel = picks(mask, rels.len());
        let y = rels[j - 1].y;
        lemma_parity_row_bits(y, fb, fb.len() as int);
        assert(rows[j - 1] == parity_row(y, fb, fb.len() as int));
        assert(sel[j - 1] == bit(mask, (j - 1) as nat));
        assert(term(rows, sel, 0, j - 1) == (bit(mask, (j - 1) as nat) && y < 0));
    }
}

/// Column `i + 1` of the sum of the exponent-parity vectors that a mask
/// picks tells whether the exponent of the prime of index `i` in the product
/// of the values picked is odd.
pub proof fn lemma_prime_column_is_parity(rels: Seq<Triple>, fb: Seq<u64>, mask: int, i: int, j: int)
    requires
        0 <= i < fb.len(),
        0 <= j <= rels.len(),
    ensures
        sum_bit(parity_rows(rels, fb), picks(mask, rels.len()), (i + 1) as nat, j) == (
        exponent_sum(rels, fb, mask, i, j) % 2 == 1),
    decreases j,
{
    if j > 0 {
        lemma_prime_column_is_parity(rels, fb, mask, i, j - 1);
        let rows = parity_rows(rels, fb);
        let sel = picks(mask, rels.len());
        let y = rels[j - 1].y;
        lemma_parity_row_bits(y, fb, fb.len() as int);
        assert(rows[j - 1] == parity_row(y, fb, fb.len() as int));
        assert(sel[j - 1] == bit(mask, (j - 1) as nat));
        assert(bit(rows[j - 1], (i + 1) as nat) == odd_exponent(y, fb, i));
        assert(term(rows, sel, (i + 1) as nat, j - 1) == (bit(mask, (j - 1) as nat) && exponent_in(
            y,
            fb,
            i,
        ) % 2 == 1));
    }
}

/// The product of the right-hand values that `mask` picks among the first
/// `j`, each without the square of its cofactor.
pub open spec fn reduced_product(rels: Seq<Triple>, cofactors: Seq<int>, mask: int, j: int) -> int
    decreases j,
{
    if j <= 0 {
        1
    } else if bit(mask, (j - 1) as nat) {
        reduced_product(rels, cofactors, mask, j - 1) * (rels[j - 1].y / (cofactors[j - 1]
            * cofactors[j - 1]))
    } else {
        reduced_product(rels, cofactors, mask, j - 1)
    }
}

/// Regrouping the factors of the product of two squares.
proof fn lemma_regroup_squares(x0: int, x: int)
    ensures
        (x0 * x) * (x0 * x) == (x0 * x0) * (x * x),
{
    assert((x0 * x) * (x0 * x) == (x0 * x0) * (x * x)) by (nonlinear_arith);
}

/// Regrouping the factors of the product of two right-hand sides.
proof fn lemma_regroup_rhs(a0: int, y0: int, a: int, y: int)
    ensures
        ((a0 * a) * (a0 * a)) * (y0 * y) == ((a0 * a0) * y0) * ((a * a) * y),
{
    let aa0 = a0 * a0;
    let aa = a * a;
    assert((a0 * a) * (a0 * a) == aa0 * aa) by (nonlinear_arith)
        requires
            aa0 == a0 * a0,
            aa == a * a,
    ;
    assert((aa0 * aa) * (y0 * y) == (aa0 * y0) * (aa * y)) by (nonlinear_arith);
}

/// The square of the product of the left-hand values that a mask picks is
/// congruent to the square of the product of the roots times the product of
/// the right-hand values, each without the square of its cofactor.
pub proof fn lemma_lhs_square(
    rels: Seq<Triple>,
    fb: Seq<u64>,
    mask: int,
    n: int,
    cofactors: Seq<int>,
    j: int,
)
    requires
        n > 0,
        picks_accounted(rels, fb, mask, n, cofactors),
        0 <= j <= rels.len(),
    ensures
        (lhs_product(rels, mask, j) * lhs_product(rels, mask, j) - (root_product(rels, mask, j)
            * root_product(rels, mask, j)) * reduced_product(rels, cofactors, mask, j)) % n == 0,
    decreases j,
{
    if j == 0 {
        assert(1 * 1 - (1 * 1) * 1 == 0);
        vstd::arithmetic::div_mod::lemma_small_mod(0, n as nat);
    } else {
        lemma_lhs_square(rels, fb, mask, n, cofactors, j - 1);
        if bit(mask, (j - 1) as nat) {
            let rel = rels[j - 1];
            let c = cofactors[j - 1];
            let x0 = lhs_product(rels, mask, j - 1);
            let a0 = root_product(rels, mask, j - 1);
            let y0 = reduced_product(rels, cofactors, mask, j - 1);
            let y = rel.y / (c * c);
            assert(rel.accounted(fb, n, c));
            let u = x0 * x0;
            let v = (a0 * a0) * y0;
            let s = rel.x * rel.x;
            let t = (rel.a * rel.a) * y;
            assert(rel.a * rel.a * y == t);
            lemma_congruent_products(u, v, s, t, n);
            lemma_regroup_squares(x0, rel.x);
            lemma_regroup_rhs(a0, y0, rel.a, y);
        }
    }
}

/// Regrouping the factors of a product of two numbers that each hold the
/// square of a cofactor.
proof fn lemma_regroup_cofactors(c0: int, q0: int, c: int, q: int)
    ensures
        ((c0 * c0) * q0) * ((c * c) * q) == ((c0 * c) * (c0 * c)) * (q0 * q),
{
    let cc0 = c0 * c0;
    let cc = c * c;
    assert((c0 * c) * (c0 * c) == cc0 * cc) by (nonlinear_arith)
        requires
            cc0 == c0 * c0,
            cc == c * c,
    ;
    assert((cc0 * q0) * (cc * q) == (cc0 * cc) * (q0 * q)) by (nonlinear_arith);
}

/// The product of the right-hand values that a mask picks is the square of
/// the product of the cofactors times the product of the values without
/// those squares.
pub proof fn lemma_reduced_product(
    rels: Seq<Triple>,
    fb: Seq<u64>,
    mask: int,
    n: int,
    cofactors: Seq<int>,
    j: int,
)
    requires
        picks_accounted(rels, fb, mask, n, cofactors),
        0 <= j <= rels.len(),
    ensures
        rhs_product(rels, mask, j) == (cofactor_product(cofactors, mask, j) * cofactor_product(
            cofactors,
            mask,
            j,
        )) * reduced_product(rels, cofactors, mask, j),
    decreases j,
{
    if j == 0 {
        assert((1 * 1) * 1 == 1);
    } else {
        lemma_reduced_product(rels, fb, mask, n, cofactors, j - 1);
        if bit(mask, (j - 1) as nat) {
            let rel = rels[j - 1];
            let c = cofactors[j - 1];
            let c0 = cofactor_product(cofactors, mask, j - 1);
            let q0 = reduced_product(rels, cofactors, mask, j - 1);
            let q = rel.y / (c * c);
            assert(rel.accounted(fb, n, c));
            assert(c * c >= 1) by (nonlinear_arith)
                requires
                    c >= 1,
            ;
            vstd::arithmetic::div_mod::lemma_fundamental_div_mod(rel.y, c * c);
            assert(rel.y == (c * c) * q);
            lemma_regroup_cofactors(c0, q0, c, q);
        }
    }
}

/// The square of a signed product does not depend on the sign.
proof fn lemma_square_of_signed(roots: int, sign: int, half: int)
    requires
        sign == 1 || sign == -1,
    ensures
        (roots * sign * half) * (roots * sign * half) == (roots * roots) * (half * half),
{
    assert((roots * sign * half) * (roots * sign * half) == (roots * roots) * (half * half))
        by (nonlinear_arith)
        requires
            sign == 1 || sign == -1,
    ;
}

/// A dependency yields a congruence of squares.
///
/// Let every relation that a dependency picks be accounted for with some
/// cofactor. Then the product `X` of the left-hand values and the right-hand
/// side `R` rebuilt from the roots and half the exponents satisfy
/// `X^2 = R^2 (mod n)`.
pub proof fn lemma_dependency_gives_congruent_squares(
    rels: Seq<Triple>,
    fb: Seq<u64>,
    mask: int,
    n: int,
    cofactors: Seq<int>,
)
    requires
        n > 0,
        primes_in_range(fb),
        picks_accounted(rels, fb, mask, n, cofactors),
        is_dependency(parity_rows(rels, fb), mask),
    ensures
        ({
            let x = lhs_product(rels, mask, rels.len() as int);
            let r = rhs_value(rels, fb, mask);
            (x * x - r * r) % n == 0
        }),
{
    let m = rels.len() as int;
    let k = fb.len() as int;
    let rows = parity_rows(rels, fb);
    let exps = exponent_sums(rels, fb, mask, m);
    let product = rhs_product(rels, mask, m);
    let reduced = reduced_product(rels, cofactors, mask, m);
    let roots = root_product(rels, mask, m);
    let half = half_powers(rels, fb, mask, k);
    let sign = sign_factor(negatives(rels, mask, m));
    let c = cofactor_product(cofactors, mask, m);
    // every exponent is even, and so is the number of negative values
    assert(!combo_bit(rows, mask, 0));
    lemma_sign_column_is_parity(rels, fb, mask, m);
    assert forall|i: int| 0 <= i < k implies #[trigger] exps[i] % 2 == 0 by {
        assert(!combo_bit(rows, mask, (i + 1) as nat));
        lemma_prime_column_is_parity(rels, fb, mask, i, m);
    }
    // the product of the values is the square of the cofactors and half powers
    lemma_rhs_product_factorization(rels, fb, mask, n, cofactors, m);
    lemma_even_power_product_is_square(fb, exps, k);
    lemma_half_powers_is_power_product(rels, fb, mask, k);
    assert(product == (c * c) * (half * half));
    // so without the cofactors it is the square of the half powers
    lemma_reduced_product(rels, fb, mask, n, cofactors, m);
    assert(c * c >= 1) by (nonlinear_arith)
        requires
            c >= 1,
    ;
    assert(reduced == half * half) by (nonlinear_arith)
        requires
            c * c >= 1,
            (c * c) * reduced == (c * c) * (half * half),
    ;
    // the square of the left-hand side is the roots squared times that product
    lemma_lhs_square(rels, fb, mask, n, cofactors, m);
    lemma_square_of_signed(roots, sign, half);
}

} // verus!
