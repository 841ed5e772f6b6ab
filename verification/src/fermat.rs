//! Fermat's little theorem: `a^(p-1) = 1 (mod p)` for a prime `p` that does
//! not divide `a`.
//!
//! The multiples `a, 2a, ..., (p-1)a` are, modulo `p`, the numbers
//! `1, ..., p-1` in another order. So their product is `(p-1)!` on the one
//! hand and `a^(p-1) (p-1)!` on the other, and `p` does not divide `(p-1)!`.

use vstd::prelude::*;
use vstd::arithmetic::div_mod::{
    lemma_mod_bound, lemma_mod_equivalence, lemma_mul_mod_noop, lemma_mul_mod_noop_right,
    lemma_small_mod,
};
use vstd::arithmetic::power::{lemma_pow0, lemma_pow1, lemma_pow_adds, pow};
use vstd::set_lib::{lemma_int_range, lemma_subset_equality, set_int_range};
use crate::arith::{is_prime, lemma_multiple_of_multiple};
use crate::primes::lemma_euclid;

verus! {

/// The product of the numbers of a list.
pub open spec fn product(s: Seq<int>) -> int
    decreases s.len(),
{
    if s.len() == 0 {
        1
    } else {
        product(s.drop_last()) * s.last()
    }
}

/// `m!`, the product of the numbers from 1 to `m`.
pub open spec fn factorial(m: nat) -> int
    decreases m,
{
    if m == 0 {
        1
    } else {
        factorial((m - 1) as nat) * m
    }
}

/// The product of a list is one of its numbers times the product of the
/// others.
pub proof fn lemma_product_without(s: Seq<int>, j: int)
    requires
        0 <= j < s.len(),
    ensures
        product(s) == s[j] * product(s.remove(j)),
    decreases s.len(),
{
    let rest = s.drop_last();
    if j == s.len() - 1 {
        assert(s.remove(j) =~= rest);
        assert(product(rest) * s.last() == s.last() * product(rest)) by (nonlinear_arith);
    } else {
        lemma_product_without(rest, j);
        let others = s.remove(j);
        assert(others.drop_last() =~= rest.remove(j));
        assert(others.last() == s.last());
        let x = product(rest.remove(j));
        assert((s[j] * x) * s.last() == s[j] * (x * s.last())) by (nonlinear_arith);
    }
}

/// Every number of the list lies between 1 and the length of the list.
pub open spec fn within_length(s: Seq<int>) -> bool {
    forall|i: int| 0 <= i < s.len() ==> 1 <= #[trigger] s[i] <= s.len()
}

/// A list of `m` different numbers between 1 and `m` holds every number
/// between 1 and `m`.
pub proof fn lemma_holds_every_number(s: Seq<int>, v: int)
    requires
        s.no_duplicates(),
        within_length(s),
        1 <= v <= s.len(),
    ensures
        s.contains(v),
{
    let m = s.len() as int;
    s.unique_seq_to_set();
    lemma_int_range(1, m + 1);
    assert(s.to_set().subset_of(set_int_range(1, m + 1))) by {
        assert forall|w: int| s.to_set().contains(w) implies set_int_range(1, m + 1).contains(
            w,
        ) by {
            let i = choose|i: int| 0 <= i < s.len() && s[i] == w;
            assert(1 <= s[i] <= s.len());
        }
    }
    vstd::set_lib::lemma_len_subset(s.to_set(), set_int_range(1, m + 1));
    lemma_subset_equality(s.to_set(), set_int_range(1, m + 1));
    assert(set_int_range(1, m + 1).contains(v));
    assert(s.to_set().contains(v));
}

/// The product of `m` different numbers between 1 and `m` is `m!`.
pub proof fn lemma_product_of_rearrangement(s: Seq<int>)
    requires
        s.no_duplicates(),
        within_length(s),
    ensures
        product(s) == factorial(s.len()),
    decreases s.len(),
{
    if s.len() > 0 {
        let m = s.len() as int;
        lemma_holds_every_number(s, m);
        let j = choose|j: int| 0 <= j < s.len() && s[j] == m;
        let others = s.remove(j);
        assert forall|i: int| 0 <= i < others.len() implies 1 <= #[trigger] others[i]
            <= others.len() by {
            let k = if i < j {
                i
            } else {
                i + 1
            };
            assert(others[i] == s[k]);
            assert(1 <= s[k] <= s.len());
            assert(s[k] != s[j]);
        }
        assert forall|x: int, y: int|
            0 <= x < others.len() && 0 <= y < others.len() && x != y implies others[x]
            != others[y] by {
            let kx = if x < j {
                x
            } else {
                x + 1
            };
            let ky = if y < j {
                y
            } else {
                y + 1
            };
            assert(others[x] == s[kx] && others[y] == s[ky]);
        }
        lemma_product_of_rearrangement(others);
        lemma_product_without(s, j);
        assert(m * factorial((m - 1) as nat) == factorial((m - 1) as nat) * m) by (nonlinear_arith);
    }
}

/// The first `m` multiples of `a`, reduced modulo `p`.
pub open spec fn multiples(a: int, p: int, m: nat) -> Seq<int> {
    Seq::new(m, |i: int| (a * (i + 1)) % p)
}

/// Modulo `p`, the product of the first `m` multiples of `a` is `a^m m!`.
proof fn lemma_product_of_multiples(a: int, p: int, m: nat)
    requires
        p > 0,
    ensures
        product(multiples(a, p, m)) % p == (pow(a, m) * factorial(m)) % p,
    decreases m,
{
    if m == 0 {
        lemma_pow0(a);
        assert(1 * 1 == 1);
    } else {
        let before = (m - 1) as nat;
        lemma_product_of_multiples(a, p, before);
        let s = multiples(a, p, m);
        assert(s.drop_last() =~= multiples(a, p, before));
        assert(s.last() == (a * m) % p);
        let x = product(multiples(a, p, before));
        let y = pow(a, before) * factorial(before);
        // x * ((a m) mod p) = x * (a m) = y * (a m) modulo p
        lemma_mul_mod_noop_right(x, a * m, p);
        lemma_mul_mod_noop(x, a * m, p);
        lemma_mul_mod_noop(y, a * m, p);
        lemma_pow_adds(a, before, 1);
        lemma_pow1(a);
        let pa = pow(a, before);
        let f = factorial(before);
        assert((pa * f) * (a * m) == (pa * a) * (f * m)) by (nonlinear_arith);
    }
}

/// A difference of two numbers strictly between 0 and `p` that `p` divides
/// is zero.
proof fn lemma_small_multiple_is_zero(d: int, p: int)
    requires
        p > 0,
        -p < d < p,
        d % p == 0,
    ensures
        d == 0,
{
    if d > 0 {
        lemma_small_mod(d as nat, p as nat);
    } else if d < 0 {
        lemma_multiple_of_multiple(-1, d, p);
        lemma_small_mod((-d) as nat, p as nat);
    }
}

/// Modulo a prime `p` that does not divide `a`, the first `p - 1` multiples
/// of `a` are different numbers between 1 and `p - 1`.
proof fn lemma_multiples_rearrange(a: int, p: int)
    requires
        is_prime(p),
        a % p != 0,
    ensures
        multiples(a, p, (p - 1) as nat).no_duplicates(),
        within_length(multiples(a, p, (p - 1) as nat)),
{
    let m = (p - 1) as nat;
    let s = multiples(a, p, m);
    assert forall|i: int| 0 <= i < s.len() implies 1 <= #[trigger] s[i] <= s.len() by {
        lemma_mod_bound(a * (i + 1), p);
        if (a * (i + 1)) % p == 0 {
            lemma_euclid(p, a, i + 1);
            lemma_small_mod((i + 1) as nat, p as nat);
        }
    }
    assert forall|i: int, j: int| 0 <= i < s.len() && 0 <= j < s.len() && i != j implies s[i]
        != s[j] by {
        if s[i] == s[j] {
            lemma_mod_equivalence(a * (i + 1), a * (j + 1), p);
            assert(a * (i + 1) - a * (j + 1) == a * (i - j)) by (nonlinear_arith);
            lemma_euclid(p, a, i - j);
            lemma_small_multiple_is_zero(i - j, p);
        }
    }
}

/// A prime does not divide the factorial of a smaller number.
proof fn lemma_factorial_is_not_multiple(p: int, m: nat)
    requires
        is_prime(p),
        m < p,
    ensures
        factorial(m) % p != 0,
    decreases m,
{
    if m == 0 {
        lemma_small_mod(1, p as nat);
    } else {
        lemma_factorial_is_not_multiple(p, (m - 1) as nat);
        if factorial(m) % p == 0 {
            lemma_euclid(p, factorial((m - 1) as nat), m as int);
            lemma_small_mod(m, p as nat);
        }
    }
}

/// Fermat's little theorem.
pub proof fn lemma_fermat(a: int, p: int)
    requires
        is_prime(p),
        a % p != 0,
    ensures
        pow(a, (p - 1) as nat) % p == 1,
{
    let m = (p - 1) as nat;
    let s = multiples(a, p, m);
    lemma_multiples_rearrange(a, p);
    lemma_product_of_rearrangement(s);
    lemma_product_of_multiples(a, p, m);
    lemma_factorial_is_not_multiple(p, m);
    let f = factorial(m);
    let power = pow(a, m);
    // f = power * f modulo p, so p divides f * (power - 1)
    lemma_mod_equivalence(power * f, f, p);
    assert(power * f - f == f * (power - 1)) by (nonlinear_arith);
    lemma_euclid(p, f, power - 1);
    lemma_mod_equivalence(power, 1, p);
    lemma_small_mod(1, p as nat);
}

} // verus!
