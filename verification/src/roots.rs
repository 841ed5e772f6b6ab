//! Why the positions that the sieve marks are those where the prime divides
//! the value of the polynomial.

use vstd::prelude::*;
use vstd::arithmetic::div_mod::{
    lemma_add_mod_noop, lemma_mod_equivalence, lemma_mod_twice, lemma_mul_mod_noop_right,
    lemma_small_mod,
};
use vstd::arithmetic::power::{lemma_pow1, lemma_pow_adds, pow};
use rug::Integer;
use crate::arith::{is_prime, lemma_multiple_of_multiple, lemma_sum_of_multiples};
use crate::big::val;
use crate::fermat::lemma_fermat;
use crate::polynomial::Polynomial;
use crate::primes::lemma_euclid;

use crate::sieve::{
    first_roots, hit, inverse_power, lemma_relation_identity, root_position, second_roots,
};

verus! {

/// A prime that divides a multiple `a * w` of a number `w`, where `a` has an
/// inverse modulo the prime, divides `w`.
proof fn lemma_cancel(a: int, ainv: int, w: int, p: int)
    requires
        is_prime(p),
        (a * ainv) % p == 1,
        (a * w) % p == 0,
    ensures
        w % p == 0,
{
    lemma_euclid(p, a, w);
    if a % p == 0 {
        // then a * ainv would be a multiple of p
        lemma_multiple_of_multiple(ainv, a, p);
        assert(ainv * a == a * ainv) by (nonlinear_arith);
        assert(false);
    }
}

/// The position `x + m` meets the root `(t - b) * ainv` of a prime exactly
/// when the prime divides `a x + b - t`.
proof fn lemma_position_meets_root(a: int, b: int, ainv: int, t: int, m: int, p: int, x: int)
    requires
        is_prime(p),
        (a * ainv) % p == 1,
    ensures
        ((x + m) % p == root_position(t, b, ainv, m, p)) == ((a * x + b - t) % p == 0),
{
    let s = (t - b) * ainv;
    let pos = root_position(t, b, ainv, m, p);
    // the position is (s + m) mod p
    assert(pos == (s % p + m) % p);
    assert(pos == (s + m) % p) by {
        lemma_add_mod_noop(s, m, p);
        lemma_add_mod_noop(s % p, m, p);
        lemma_mod_twice(s, p);
    }
    // x + m = s + m exactly when p divides x - s
    lemma_mod_equivalence(x + m, s + m, p);
    let d = x - s;
    // a * (x - s) = (a x + b - t) - (t - b) * (a * ainv - 1)
    let e = a * ainv - 1;
    lemma_mod_equivalence(a * ainv, 1, p);
    lemma_small_mod(1, p as nat);
    assert(e % p == 0);
    let w = a * x + b - t;
    assert(a * d == w + (-(t - b)) * e) by (nonlinear_arith)
        requires
            d == x - (t - b) * ainv,
            e == a * ainv - 1,
            w == a * x + b - t,
    ;
    lemma_multiple_of_multiple(-(t - b), e, p);
    if d % p == 0 {
        lemma_multiple_of_multiple(a, d, p);
        // w = a d - (-(t - b)) e
        lemma_multiple_of_multiple(-1, (-(t - b)) * e, p);
        lemma_sum_of_multiples(a * d, -1 * ((-(t - b)) * e), p);
        assert(w == a * d + -1 * ((-(t - b)) * e));
    }
    if w % p == 0 {
        lemma_sum_of_multiples(w, (-(t - b)) * e, p);
        lemma_cancel(a, ainv, d, p);
    }
}

/// Modulo a prime `p` that does not divide `a`, the power `a^(p-2)` is the
/// inverse of `a`.
pub proof fn lemma_inverse_power_is_inverse(a: int, p: int)
    requires
        is_prime(p),
        a % p != 0,
    ensures
        (a * inverse_power(a, p)) % p == 1,
{
    lemma_fermat(a, p);
    lemma_pow_adds(a, 1, (p - 2) as nat);
    lemma_pow1(a);
    lemma_mul_mod_noop_right(a, pow(a, (p - 2) as nat), p);
}

/// The sieve marks the roots of the polynomial.
///
/// Let `p` be a prime that does not divide the leading coefficient of a
/// fitting polynomial, and `t` a square root of `n` modulo `p`. Then `p`
/// divides the value of the polynomial at `x` exactly when the position
/// `x + m` meets one of the two root positions that the root setup computes
/// for `p`.
pub proof fn lemma_sieve_marks_roots(poly: Polynomial, n: int, p: int, t: int, m: int, x: int)
    requires
        is_prime(p),
        poly.fits(n),
        val(poly.a) % p != 0,
        (t * t) % p == n % p,
    ensures
        (poly.value_at(x) % p == 0) == ((x + m) % p == root_position(
            t,
            val(poly.b),
            inverse_power(val(poly.a), p),
            m,
            p,
        ) || (x + m) % p == root_position(-t, val(poly.b), inverse_power(val(poly.a), p), m, p)),
{
    lemma_inverse_power_is_inverse(val(poly.a), p);
    lemma_marked_positions_are_roots(poly, n, p, t, inverse_power(val(poly.a), p), m, x);
}

/// The two positions that belong to an inverse `ainv` of the leading
/// coefficient are the roots of the polynomial.
///
/// Let `p` be a prime, `t` a square root of `n` modulo `p`, and `ainv` an
/// inverse of the leading coefficient modulo `p`. Then `p` divides the value
/// of a fitting polynomial at `x` exactly when the position `x + m` meets one
/// of the two root positions of `p`.
pub proof fn lemma_marked_positions_are_roots(
    poly: Polynomial,
    n: int,
    p: int,
    t: int,
    ainv: int,
    m: int,
    x: int,
)
    requires
        is_prime(p),
        poly.fits(n),
        (t * t) % p == n % p,
        (val(poly.a) * ainv) % p == 1,
    ensures
        (poly.value_at(x) % p == 0) == ((x + m) % p == root_position(
            t,
            val(poly.b),
            ainv,
            m,
            p,
        ) || (x + m) % p == root_position(-t, val(poly.b), ainv, m, p)),
{
    let a = val(poly.a);
    let b = val(poly.b);
    let c = val(poly.c);
    let q = poly.value_at(x);
    let lhs = a * x + b;
    let u = lhs - t;
    let v = lhs + t;
    lemma_position_meets_root(a, b, ainv, t, m, p, x);
    lemma_position_meets_root(a, b, ainv, -t, m, p, x);
    assert(a * x + b - (-t) == v);
    // a * Q(x) = lhs^2 - n, and n = t^2 modulo p
    lemma_relation_identity(a, b, c, val(poly.root), n, x);
    lemma_mod_equivalence(t * t, n, p);
    let g = t * t - n;
    assert(a * q == u * v + g) by (nonlinear_arith)
        requires
            lhs * lhs - a * q == n,
            u == lhs - t,
            v == lhs + t,
            g == t * t - n,
    ;
    if q % p == 0 {
        lemma_multiple_of_multiple(a, q, p);
        lemma_multiple_of_multiple(-1, g, p);
        lemma_sum_of_multiples(a * q, -1 * g, p);
        assert(u * v == a * q + -1 * g);
        lemma_euclid(p, u, v);
    }
    if u % p == 0 || v % p == 0 {
        if u % p == 0 {
            lemma_multiple_of_multiple(v, u, p);
            assert(v * u == u * v) by (nonlinear_arith);
        } else {
            lemma_multiple_of_multiple(u, v, p);
        }
        lemma_sum_of_multiples(u * v, g, p);
        lemma_cancel(a, ainv, q, p);
    }
}

/// A power of a multiple of `p`, with an exponent other than zero, is a
/// multiple of `p`.
proof fn lemma_power_of_multiple(a: int, p: int, e: nat)
    requires
        p > 0,
        a % p == 0,
        e >= 1,
    ensures
        pow(a, e) % p == 0,
{
    lemma_pow_adds(a, 1, (e - 1) as nat);
    lemma_pow1(a);
    lemma_multiple_of_multiple(pow(a, (e - 1) as nat), a, p);
    assert(pow(a, (e - 1) as nat) * a == a * pow(a, (e - 1) as nat)) by (nonlinear_arith);
}

/// The root setup turns a polynomial down for an odd prime of the factor
/// base exactly when that prime divides the leading coefficient.
pub proof fn lemma_degenerate_means_divides(a: int, p: int)
    requires
        is_prime(p),
        p >= 3,
    ensures
        (inverse_power(a, p) == 0) == (a % p == 0),
{
    if a % p == 0 {
        lemma_power_of_multiple(a, p, (p - 2) as nat);
    } else {
        lemma_inverse_power_is_inverse(a, p);
        if inverse_power(a, p) == 0 {
            assert(a * 0 == 0);
            lemma_small_mod(0, p as nat);
        }
    }
}

/// What the log sieve adds to a position tells whether the prime divides the
/// value of the polynomial there.
///
/// Let the prime of index `i` of the factor base not divide the leading
/// coefficient of a fitting polynomial, let `tsqrt[i]` be a square root of
/// `n` modulo that prime, and let the prime have a weight other than zero.
/// Then the two roots of the prime together add something to the position
/// `t` exactly when the prime divides the value of the polynomial at
/// `t - xmax`.
pub proof fn lemma_score_tells_divisibility(
    poly: Polynomial,
    n: int,
    fb: Seq<u64>,
    tsqrt: Seq<Integer>,
    xmax: int,
    w: int,
    i: int,
    t: int,
)
    requires
        0 <= i < fb.len(),
        tsqrt.len() == fb.len(),
        is_prime(fb[i] as int),
        fb[i] <= 0xFFFF_FFFF,
        poly.fits(n),
        val(poly.a) % (fb[i] as int) != 0,
        (val(tsqrt[i]) * val(tsqrt[i])) % (fb[i] as int) == n % (fb[i] as int),
        w > 0,
    ensures
        (hit(first_roots(poly, fb, tsqrt, xmax)[i] as int, fb[i] as int, w, t) + hit(
            second_roots(poly, fb, tsqrt, xmax)[i] as int,
            fb[i] as int,
            w,
            t,
        ) > 0) == (poly.value_at(t - xmax) % (fb[i] as int) == 0),
{
    let p = fb[i] as int;
    let ainv = inverse_power(val(poly.a), p);
    let first = root_position(val(tsqrt[i]), val(poly.b), ainv, xmax, p);
    let second = root_position(-val(tsqrt[i]), val(poly.b), ainv, xmax, p);
    vstd::arithmetic::div_mod::lemma_mod_bound(
        ((val(tsqrt[i]) - val(poly.b)) * ainv) % p + xmax,
        p,
    );
    vstd::arithmetic::div_mod::lemma_mod_bound(
        ((-val(tsqrt[i]) - val(poly.b)) * ainv) % p + xmax,
        p,
    );
    assert(first_roots(poly, fb, tsqrt, xmax)[i] == first);
    assert(second_roots(poly, fb, tsqrt, xmax)[i] == second);
    lemma_sieve_marks_roots(poly, n, p, val(tsqrt[i]), xmax, t - xmax);
    assert(t - xmax + xmax == t);
}

} // verus!
