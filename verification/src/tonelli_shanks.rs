//! Square roots modulo a prime, by the Tonelli-Shanks iteration.
//!
//! The module [`crate::shanks`] holds the reasons why the iteration reaches
//! a root whenever the modulus is prime and the number a square.

use vstd::prelude::*;
use vstd::arithmetic::div_mod::{
    lemma_mod_bound, lemma_mod_twice, lemma_mul_mod_noop, lemma_mul_mod_noop_right,
    lemma_small_mod,
};
use vstd::arithmetic::power2::pow2;
use vstd::arithmetic::power::{lemma_pow1, lemma_pow_adds, lemma_pow_mod_noop, pow};
use rug::Integer;
use crate::arith::{
    is_prime, is_sqrt_mod, is_square_mod, legendre_symbol, lemma_multiple_of_multiple, square,
};
use crate::big::{
    copy, div_rem, equal, from_u64, legendre, less, minus, plus, pow_mod, symbol, times, val,
};
use crate::euler::lemma_non_square_exists;
use crate::fermat::lemma_fermat;
use crate::shanks::{
    is_power, lemma_power_before_one, lemma_round_of_b, lemma_round_of_g, lemma_square_of_power,
    lemma_start_of_b, lemma_start_of_g,
};

verus! {

/// What [`tonelli_shanks`] returns for `n` and `p`: the fast paths in the
/// order in which they are tried, then a root, or zero when none is found.
pub open spec fn tonelli_result(n: int, p: int, r: int) -> bool {
    if n % p == 0 {
        r == 0
    } else if p == 2 {
        r == 2
    } else if symbol(n, p) != 1 {
        r == 0
    } else {
        r == 0 || is_sqrt_mod(r, n, p)
    }
}

/// The root that is tried first for a prime `p` of the form `4k + 3`:
/// `n^((p+1)/4) mod p`.
pub open spec fn power_root(n: int, p: int) -> int {
    pow(n % p, ((p + 1) / 4) as nat) % p
}

/// For a prime `p` of the form `4k + 3` and a square `n` modulo `p` that `p`
/// does not divide, the power `n^((p+1)/4)` is a square root of `n`.
pub proof fn lemma_power_root_is_root(n: int, p: int)
    requires
        is_prime(p),
        p % 4 == 3,
        n % p != 0,
        is_square_mod(n, p),
    ensures
        is_sqrt_mod(power_root(n, p), n, p),
{
    let x = choose|x: int| #[trigger] is_sqrt_mod(x, n, p);
    let m = n % p;
    let h = ((p - 1) / 2) as nat;
    let q = ((p + 1) / 4) as nat;
    let root = power_root(n, p);
    lemma_mod_bound(n, p);
    lemma_mod_bound(pow(m, q), p);
    assert(square(x) == x * x);
    // x is not a multiple of p, so x^(p-1) = 1
    if x % p == 0 {
        lemma_multiple_of_multiple(x, x, p);
        assert(false);
    }
    lemma_fermat(x, p);
    // m^h = (x^2)^h = x^(p-1) = 1
    lemma_pow_mod_noop(x * x, h, p);
    vstd::arithmetic::power::lemma_square_is_pow2(x);
    vstd::arithmetic::power::lemma_pow_multiplies(x, 2, h);
    assert(2 * h == p - 1);
    assert(pow(m, h) % p == 1);
    // root^2 = m^(2q) = m^h * m
    lemma_mul_mod_noop(pow(m, q), pow(m, q), p);
    lemma_pow_adds(m, q, q);
    assert(q + q == h + 1);
    lemma_pow_adds(m, h, 1);
    lemma_pow1(m);
    lemma_mul_mod_noop(pow(m, h), m, p);
    lemma_small_mod(1, p as nat);
    lemma_small_mod(m as nat, p as nat);
    assert(1 * m == m);
    vstd::arithmetic::div_mod::lemma_mod_twice(n, p);
    assert(square(root) == root * root);
}

/// Whether `c` squared is `n` modulo `p`, for `n` already reduced.
pub(crate) fn squares_to(c: &Integer, n: &Integer, p: &Integer) -> (r: bool)
    requires
        val(*p) > 0,
        0 <= val(*n) < val(*p),
    ensures
        r == (square(val(*c)) % val(*p) == val(*n) % val(*p)),
{
    let sq = times(c, c);
    let (_, rem) = div_rem(&sq, p);
    proof {
        vstd::arithmetic::div_mod::lemma_small_mod(val(*n) as nat, val(*p) as nat);
    }
    equal(&rem, n)
}

/// One step of the iteration keeps `x^2 = n * b (mod p)`: with `g' = gs^2`,
/// the step replaces `x` by `x * gs` and `b` by `b * g'`.
proof fn lemma_step_keeps_root(n: int, p: int, x: int, b: int, gs: int)
    requires
        p > 0,
        (x * x) % p == (n * b) % p,
    ensures
        (((x * gs) % p) * ((x * gs) % p)) % p == (n * ((b * ((gs * gs) % p)) % p)) % p,
{
    let g2 = (gs * gs) % p;
    lemma_mul_mod_noop(x * gs, x * gs, p);
    assert((x * gs) * (x * gs) == (x * x) * (gs * gs)) by (nonlinear_arith);
    lemma_mul_mod_noop(x * x, gs * gs, p);
    lemma_mul_mod_noop(n * b, gs * gs, p);
    lemma_mul_mod_noop_right(n * b, gs * gs, p);
    assert((n * b) * g2 == n * (b * g2)) by (nonlinear_arith);
    lemma_mul_mod_noop_right(n, b * g2, p);
}

/// At the start of the iteration `x^2 = n * b (mod p)`: with an odd `s`,
/// `x = n^((s+1)/2)` and `b = n^s`.
proof fn lemma_start_has_root(n: int, p: int, s: int)
    requires
        p > 0,
        s >= 1,
        s % 2 == 1,
    ensures
        ((pow(n, ((s + 1) / 2) as nat) % p) * (pow(n, ((s + 1) / 2) as nat) % p)) % p == (n * (pow(
            n,
            s as nat,
        ) % p)) % p,
{
    let h = ((s + 1) / 2) as nat;
    let x = pow(n, h);
    lemma_mul_mod_noop(x, x, p);
    lemma_pow_adds(n, h, h);
    assert(h + h == s + 1);
    lemma_pow_adds(n, 1, s as nat);
    lemma_pow1(n);
    lemma_mul_mod_noop_right(n, pow(n, s as nat), p);
}

/// `p - 1 = s * 2^e` with `s` odd.
fn split_order(p: &Integer) -> (r: (Integer, Integer))
    requires
        val(*p) >= 3,
    ensures
        val(r.0) >= 1,
        val(r.0) % 2 == 1,
        val(r.1) >= 0,
        val(*p) - 1 == val(r.0) * pow2(val(r.1) as nat),
{
    let zero = from_u64(0);
    let one = from_u64(1);
    let two = from_u64(2);
    let mut s = minus(p, &one);
    let mut e = from_u64(0);
    proof {
        vstd::arithmetic::power2::lemma2_to64();
        assert(val(s) * 1 == val(s));
    }
    loop
        invariant
            val(zero) == 0,
            val(one) == 1,
            val(two) == 2,
            val(s) >= 1,
            val(e) >= 0,
            val(*p) - 1 == val(s) * pow2(val(e) as nat),
        ensures
            val(s) % 2 == 1,
        decreases val(s),
    {
        let (half, low) = div_rem(&s, &two);
        if !equal(&low, &zero) {
            break ;
        }
        proof {
            let scale = pow2(val(e) as nat);
            vstd::arithmetic::power2::lemma_pow2_unfold((val(e) + 1) as nat);
            assert((2 * val(half)) * scale == val(half) * (2 * scale)) by (nonlinear_arith);
        }
        s = half;
        e = plus(&e, &one);
    }
    (s, e)
}

/// The least number from 2 upwards whose symbol is -1, or `p` when there is
/// none below `p`. Modulo an odd prime there always is one.
fn least_non_residue(p: &Integer) -> (z: Integer)
    requires
        val(*p) >= 3,
    ensures
        2 <= val(z) <= val(*p),
        is_prime(val(*p)) ==> val(z) < val(*p) && !is_square_mod(val(z), val(*p)),
{
    let one = from_u64(1);
    let mut z = from_u64(2);
    proof {
        if is_prime(val(*p)) {
            assert(val(*p) % 2 != 0);
            assert(square(1) == 1);
            assert(is_sqrt_mod(1, 1, val(*p)));
        }
    }
    while less(&z, p)
        invariant
            val(one) == 1,
            val(*p) >= 3,
            2 <= val(z) <= val(*p),
            is_prime(val(*p)) ==> forall|y: int|
                1 <= y < val(z) ==> #[trigger] is_square_mod(y, val(*p)),
        decreases val(*p) - val(z),
    {
        if legendre(&z, p) == -1 {
            proof {
                if is_prime(val(*p)) {
                    assert(val(*p) % 2 != 0);
                }
            }
            return z;
        }
        proof {
            if is_prime(val(*p)) {
                assert(val(*p) % 2 != 0);
                lemma_small_mod(val(z) as nat, val(*p) as nat);
            }
        }
        z = plus(&z, &one);
    }
    proof {
        if is_prime(val(*p)) {
            lemma_non_square_exists(val(*p));
        }
    }
    z
}

/// The least `m` up to `r` for which the `2^m`-th power of `b` is 1, or `r`
/// when there is none below `r`.
fn order_of(b: &Integer, r: &Integer, p: &Integer) -> (m: Integer)
    requires
        val(*p) >= 3,
        0 <= val(*b) < val(*p),
        val(*r) >= 0,
    ensures
        0 <= val(m) <= val(*r),
        val(m) < val(*r) ==> is_power(1, val(*b), val(m) as nat, val(*p)),
        forall|k: nat| k < val(m) ==> !#[trigger] is_power(1, val(*b), k, val(*p)),
        val(m) == 0 && val(*r) > 0 ==> val(*b) == 1,
{
    let one = from_u64(1);
    let two = from_u64(2);
    let mut t = copy(b);
    let mut m = from_u64(0);
    proof {
        vstd::arithmetic::power2::lemma2_to64();
        lemma_pow1(val(*b));
        lemma_small_mod(val(*b) as nat, val(*p) as nat);
    }
    while less(&m, r)
        invariant
            val(one) == 1,
            val(two) == 2,
            val(*p) >= 3,
            0 <= val(*b) < val(*p),
            0 <= val(m) <= val(*r),
            0 <= val(t) < val(*p),
            is_power(val(t), val(*b), val(m) as nat, val(*p)),
            forall|k: nat| k < val(m) ==> !#[trigger] is_power(1, val(*b), k, val(*p)),
            val(m) == 0 ==> val(t) == val(*b),
        decreases val(*r) - val(m),
    {
        if equal(&t, &one) {
            return m;
        }
        proof {
            lemma_square_of_power(val(t), val(*b), val(m) as nat, val(*p));
            lemma_mod_bound(pow(val(t), 2), val(*p));
        }
        t = pow_mod(&t, &two, p);
        m = plus(&m, &one);
    }
    m
}

/// The `2^k`-th power of `g` modulo `p`, by squaring `k` times.
fn repeated_square(g: &Integer, k: &Integer, p: &Integer) -> (r: Integer)
    requires
        val(*p) >= 3,
        0 <= val(*g) < val(*p),
        val(*k) >= 0,
    ensures
        0 <= val(r) < val(*p),
        is_power(val(r), val(*g), val(*k) as nat, val(*p)),
{
    let one = from_u64(1);
    let two = from_u64(2);
    let mut power = copy(g);
    let mut done = from_u64(0);
    proof {
        vstd::arithmetic::power2::lemma2_to64();
        lemma_pow1(val(*g));
        lemma_small_mod(val(*g) as nat, val(*p) as nat);
    }
    while less(&done, k)
        invariant
            val(one) == 1,
            val(two) == 2,
            val(*p) >= 3,
            0 <= val(done) <= val(*k),
            0 <= val(power) < val(*p),
            is_power(val(power), val(*g), val(done) as nat, val(*p)),
        decreases val(*k) - val(done),
    {
        proof {
            lemma_square_of_power(val(power), val(*g), val(done) as nat, val(*p));
            lemma_mod_bound(pow(val(power), 2), val(*p));
        }
        power = pow_mod(&power, &two, p);
        done = plus(&done, &one);
    }
    power
}

/// The root that the Tonelli-Shanks iteration ends with, for a reduced
/// non-zero `n` and a modulus of 3 at least.
///
/// With `p - 1 = s * 2^e` and the least non-residue `z`, the iteration starts
/// from `x = n^((s+1)/2)`, `b = n^s`, `g = z^s` and `r = e`. Each round finds
/// the least `m` with `b^(2^m) = 1`, multiplies `x` by `g^(2^(r-m-1))` and
/// `b` by the square of that, and goes on with `r = m`; with `m = 0` it ends
/// and `x` is the root. The result is zero when the iteration breaks down,
/// which it does not when `p` is prime and `n` a square modulo `p`.
pub fn root_by_iteration(n: &Integer, p: &Integer) -> (root: Integer)
    requires
        val(*p) >= 3,
        0 < val(*n) < val(*p),
    ensures
        0 <= val(root) < val(*p),
        val(root) != 0 ==> square(val(root)) % val(*p) == val(*n) % val(*p),
        is_prime(val(*p)) && is_square_mod(val(*n), val(*p)) ==> val(root) != 0,
{
    let ghost solvable = is_prime(val(*p)) && is_square_mod(val(*n), val(*p));
    let zero = from_u64(0);
    let one = from_u64(1);
    let two = from_u64(2);
    let (s, e) = split_order(p);
    let z = least_non_residue(p);
    if !less(&z, p) {
        return zero;
    }
    let mut b = pow_mod(n, &s, p);
    let mut g = pow_mod(&z, &s, p);
    let s_plus_1 = plus(&s, &one);
    let (half_s, _) = div_rem(&s_plus_1, &two);
    let mut x = pow_mod(n, &half_s, p);
    let mut r = e;
    proof {
        lemma_start_has_root(val(*n), val(*p), val(s));
        lemma_small_mod(val(*n) as nat, val(*p) as nat);
        lemma_small_mod(val(z) as nat, val(*p) as nat);
        if solvable {
            lemma_start_of_b(val(*n), val(*p), val(s), val(r) as nat);
            lemma_start_of_g(val(z), val(*p), val(s), val(r) as nat);
        }
    }
    loop
        invariant
            val(*p) >= 3,
            0 < val(*n) < val(*p),
            solvable == (is_prime(val(*p)) && is_square_mod(val(*n), val(*p))),
            val(zero) == 0,
            val(one) == 1,
            val(two) == 2,
            val(r) >= 0,
            0 <= val(b) < val(*p),
            0 <= val(g) < val(*p),
            0 <= val(x) < val(*p),
            (val(x) * val(x)) % val(*p) == (val(*n) * val(b)) % val(*p),
            solvable ==> val(r) >= 1 && is_power(1, val(b), (val(r) - 1) as nat, val(*p))
                && is_power(val(*p) - 1, val(g), (val(r) - 1) as nat, val(*p)),
        decreases val(r),
    {
        let m = order_of(&b, &r, p);
        if equal(&m, &zero) {
            if !equal(&b, &one) {
                return zero;
            }
            proof {
                assert(val(*n) * val(b) == val(*n)) by (nonlinear_arith)
                    requires
                        val(b) == 1,
                ;
                assert(square(val(x)) == val(x) * val(x));
                lemma_small_mod(val(*n) as nat, val(*p) as nat);
                if val(x) == 0 {
                    assert(square(0) == 0);
                    lemma_small_mod(0, val(*p) as nat);
                }
            }
            return x;
        }
        if equal(&m, &r) {
            proof {
                if solvable {
                    assert(!is_power(1, val(b), (val(r) - 1) as nat, val(*p)));
                }
            }
            return zero;
        }
        let r_minus_m = minus(&r, &m);
        let steps = minus(&r_minus_m, &one);
        let gs = repeated_square(&g, &steps, p);
        let gs_squared = times(&gs, &gs);
        let next_g = div_rem(&gs_squared, p).1;
        let x_gs = times(&x, &gs);
        let next_x = div_rem(&x_gs, p).1;
        let b_g = times(&b, &next_g);
        let next_b = div_rem(&b_g, p).1;
        proof {
            lemma_step_keeps_root(val(*n), val(*p), val(x), val(b), val(gs));
            lemma_square_of_power(val(gs), val(g), val(steps) as nat, val(*p));
            assert((val(steps) + 1) as nat == (val(r) - val(m)) as nat);
            if solvable {
                assert(!is_power(1, val(b), (val(m) - 1) as nat, val(*p)));
                lemma_power_before_one(val(b), val(m) as nat, val(*p));
                lemma_round_of_g(val(g), val(next_g), val(r) as nat, val(m) as nat, val(*p));
                lemma_round_of_b(val(b), val(next_g), val(m) as nat, val(*p));
            }
        }
        g = next_g;
        x = next_x;
        b = next_b;
        r = m;
    }
}

/// The root that is tried first for a reduced non-zero `n` and a modulus of 3
/// at least: `n^((p+1)/4)` when `p` is of the form `4k + 3`, else what the
/// Tonelli-Shanks iteration ends with. When `p` is prime and `n` a square
/// modulo `p`, it is a root.
fn candidate(n: &Integer, p: &Integer) -> (r: Integer)
    requires
        val(*p) >= 3,
        0 < val(*n) < val(*p),
    ensures
        0 <= val(r) < val(*p),
        val(*p) % 4 == 3 ==> val(r) == power_root(val(*n), val(*p)),
        is_prime(val(*p)) && is_square_mod(val(*n), val(*p)) ==> is_sqrt_mod(
            val(r),
            val(*n),
            val(*p),
        ),
{
    let one = from_u64(1);
    let three = from_u64(3);
    let four = from_u64(4);
    let (_, p_mod_4) = div_rem(p, &four);
    if equal(&p_mod_4, &three) {
        let p_plus_1 = plus(p, &one);
        let (e, _) = div_rem(&p_plus_1, &four);
        proof {
            lemma_small_mod(val(*n) as nat, val(*p) as nat);
            if is_prime(val(*p)) && is_square_mod(val(*n), val(*p)) {
                lemma_power_root_is_root(val(*n), val(*p));
            }
        }
        return pow_mod(n, &e, p);
    }
    root_by_iteration(n, p)
}

/// A square root of `n` modulo `p`.
///
/// Returns 0 when `p` divides `n`, `p` itself when `p` is 2, and 0 when the
/// symbol `(n|p)` is not 1. Otherwise the root is `n^((p+1)/4)` when `p` is
/// of the form `4k + 3`, and else what the Tonelli-Shanks iteration reaches
/// with the least non-residue; a value that fails the test
/// `r * r = n (mod p)`, as it may when `p` is not prime, is replaced by 0.
///
/// For an odd prime `p` and `n` with `(n|p) = 1` the result is a square root
/// of `n` modulo `p`.
pub fn tonelli_shanks(n: &Integer, p: &Integer) -> (r: Integer)
    requires
        val(*p) >= 2,
    ensures
        tonelli_result(val(*n), val(*p), val(r)),
        is_prime(val(*p)) && val(*p) % 2 == 1 && legendre_symbol(val(*n), val(*p)) == 1
            ==> is_sqrt_mod(val(r), val(*n), val(*p)),
        is_prime(val(*p)) && val(*p) % 4 == 3 && legendre_symbol(val(*n), val(*p)) == 1 ==> val(r)
            == power_root(val(*n), val(*p)),
{
    let zero = from_u64(0);
    let two = from_u64(2);
    let (_, reduced) = div_rem(n, p);
    if equal(&reduced, &zero) {
        return zero;
    }
    if equal(p, &two) {
        return two;
    }
    if legendre(n, p) != 1 {
        return zero;
    }
    proof {
        lemma_mod_twice(val(*n), val(*p));
        lemma_mod_bound(val(*n), val(*p));
        assert(forall|x: int|
            is_sqrt_mod(x, val(reduced), val(*p)) == is_sqrt_mod(x, val(*n), val(*p)));
        assert(is_square_mod(val(reduced), val(*p)) == is_square_mod(val(*n), val(*p)));
        assert(power_root(val(reduced), val(*p)) == power_root(val(*n), val(*p)));
    }
    let first = candidate(&reduced, p);
    if squares_to(&first, &reduced, p) {
        return first;
    }
    zero
}

} // verus!
