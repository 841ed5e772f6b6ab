//! Wilson's theorem and Euler's criterion.
//!
//! Modulo a prime `p`, every number `x` between 1 and `p - 1` has a partner
//! `y` with `x y = z`. When `z` is no square, no number is its own partner,
//! so the numbers from 1 to `p - 1` fall into pairs of product `z`, and
//! `(p-1)! = z^((p-1)/2)`. With `z = 1` only 1 and `p - 1` are their own
//! partners, and `(p-1)! = -1`.

use vstd::prelude::*;
use vstd::arithmetic::div_mod::{
    lemma_mod_bound, lemma_mod_equivalence, lemma_mul_mod_noop, lemma_mul_mod_noop_left,
    lemma_mul_mod_noop_right, lemma_small_mod,
};
use vstd::arithmetic::power::{lemma_pow0, lemma_pow1, lemma_pow_adds, pow};
use crate::arith::{is_prime, is_sqrt_mod, is_square_mod, lemma_multiple_of_multiple, square};
use crate::fermat::{
    factorial, lemma_fermat, lemma_holds_every_number, lemma_product_of_rearrangement,
    lemma_product_without, product,
};
use crate::primes::lemma_euclid;
use crate::roots::lemma_inverse_power_is_inverse;
use crate::sieve::inverse_power;

verus! {

/// The partner of `x` for `z` modulo `p`: the number `y` below `p` with
/// `x y = z`.
pub open spec fn partner(z: int, x: int, p: int) -> int {
    (z * inverse_power(x, p)) % p
}

/// What makes the partner a partner: it lies between 1 and `p - 1`, and its
/// product with `x` is `z`.
pub proof fn lemma_partner(z: int, x: int, p: int)
    requires
        is_prime(p),
        z % p != 0,
        x % p != 0,
    ensures
        1 <= partner(z, x, p) < p,
        (x * partner(z, x, p)) % p == z % p,
{
    let inv = inverse_power(x, p);
    let y = partner(z, x, p);
    lemma_inverse_power_is_inverse(x, p);
    lemma_mod_bound(z * inv, p);
    // x * y = x * (z * inv) = z * (x * inv) = z
    lemma_mul_mod_noop_right(x, z * inv, p);
    assert(x * (z * inv) == z * (x * inv)) by (nonlinear_arith);
    lemma_mul_mod_noop_right(z, x * inv, p);
    assert(z * 1 == z);
    if y == 0 {
        assert(x * 0 == 0);
        lemma_small_mod(0, p as nat);
    }
}

/// Two numbers below `p` with the same product with a number that `p` does
/// not divide are equal.
pub proof fn lemma_cancel_factor(x: int, u: int, v: int, p: int)
    requires
        is_prime(p),
        x % p != 0,
        0 <= u < p,
        0 <= v < p,
        (x * u) % p == (x * v) % p,
    ensures
        u == v,
{
    lemma_mod_equivalence(x * u, x * v, p);
    assert(x * u - x * v == x * (u - v)) by (nonlinear_arith);
    lemma_euclid(p, x, u - v);
    if u > v {
        lemma_small_mod((u - v) as nat, p as nat);
    } else if v > u {
        lemma_multiple_of_multiple(-1, u - v, p);
        lemma_small_mod((v - u) as nat, p as nat);
    }
}

/// The partner of the partner of a number below `p` is the number itself.
pub proof fn lemma_partner_of_partner(z: int, x: int, p: int)
    requires
        is_prime(p),
        z % p != 0,
        1 <= x < p,
    ensures
        partner(z, partner(z, x, p), p) == x,
{
    lemma_small_mod(x as nat, p as nat);
    lemma_partner(z, x, p);
    let y = partner(z, x, p);
    lemma_small_mod(y as nat, p as nat);
    lemma_partner(z, y, p);
    let back = partner(z, y, p);
    assert(y * x == x * y) by (nonlinear_arith);
    lemma_cancel_factor(y, back, x, p);
}

/// The list holds different numbers between 1 and `p - 1`, with each number
/// its partner, and no number is its own partner.
pub open spec fn is_paired(s: Seq<int>, z: int, p: int) -> bool {
    &&& s.no_duplicates()
    &&& forall|i: int| 0 <= i < s.len() ==> 1 <= #[trigger] s[i] < p
    &&& forall|i: int| 0 <= i < s.len() ==> s.contains(partner(z, #[trigger] s[i], p))
    &&& forall|i: int| 0 <= i < s.len() ==> partner(z, #[trigger] s[i], p) != s[i]
}

/// The index in the list of the number that stands at index `i` once the
/// number at index `j` has been taken out.
pub open spec fn skip(j: int, i: int) -> int {
    if i < j {
        i
    } else {
        i + 1
    }
}

/// The list without its last number and without the number at index `j`.
pub open spec fn without_pair(s: Seq<int>, j: int) -> Seq<int> {
    s.drop_last().remove(j)
}

/// The numbers of the list without a pair are numbers of the list.
proof fn lemma_without_pair_index(s: Seq<int>, j: int, i: int)
    requires
        0 <= j < s.len() - 1,
        0 <= i < s.len() - 2,
    ensures
        without_pair(s, j).len() == s.len() - 2,
        without_pair(s, j)[i] == s[skip(j, i)],
        0 <= skip(j, i) < s.len() - 1,
        skip(j, i) != j,
{
}

/// A number of the list other than the last one and the one at index `j`
/// stands in the list without that pair.
proof fn lemma_without_pair_holds(s: Seq<int>, j: int, k: int)
    requires
        0 <= j < s.len() - 1,
        0 <= k < s.len() - 1,
        k != j,
    ensures
        without_pair(s, j).contains(s[k]),
{
    let i = if k < j {
        k
    } else {
        k - 1
    };
    lemma_without_pair_index(s, j, i);
    assert(without_pair(s, j)[i] == s[k]);
}

/// In a paired list, the partner of a number stands at another index.
proof fn lemma_partner_index(s: Seq<int>, z: int, p: int, k: int) -> (kv: int)
    requires
        is_paired(s, z, p),
        0 <= k < s.len(),
    ensures
        0 <= kv < s.len(),
        kv != k,
        s[kv] == partner(z, s[k], p),
{
    assert(s.contains(partner(z, s[k], p)));
    let kv = choose|kv: int| 0 <= kv < s.len() && s[kv] == partner(z, s[k], p);
    assert(partner(z, s[k], p) != s[k]);
    kv
}

/// In a paired list without its last number and that number's partner, the
/// partner of each number is still there.
proof fn lemma_partner_stays(s: Seq<int>, z: int, p: int, j: int, i: int)
    requires
        is_prime(p),
        z % p != 0,
        is_paired(s, z, p),
        0 <= j < s.len() - 1,
        s[j] == partner(z, s.last(), p),
        0 <= i < s.len() - 2,
    ensures
        without_pair(s, j).contains(partner(z, without_pair(s, j)[i], p)),
{
    let last = s.len() - 1;
    lemma_without_pair_index(s, j, i);
    let k = skip(j, i);
    let kv = lemma_partner_index(s, z, p, k);
    // the partner of s[k] is neither the last number nor its partner,
    // whose partners are each other
    assert(1 <= s[k] < p);
    assert(1 <= s[last] < p);
    lemma_partner_of_partner(z, s[k], p);
    lemma_partner_of_partner(z, s[last], p);
    if kv == last {
        assert(s[k] == s[j]);
    }
    if kv == j {
        assert(s[k] == s[last]);
    }
    lemma_without_pair_holds(s, j, kv);
}

/// Taking the last number and its partner out of a paired list leaves a
/// paired list. The result is the index of the partner.
proof fn lemma_pair_removed(s: Seq<int>, z: int, p: int) -> (j: int)
    requires
        is_prime(p),
        z % p != 0,
        is_paired(s, z, p),
        s.len() > 0,
    ensures
        0 <= j < s.len() - 1,
        s[j] == partner(z, s.last(), p),
        is_paired(without_pair(s, j), z, p),
{
    let last = s.len() - 1;
    let j = lemma_partner_index(s, z, p, last);
    let rest = without_pair(s, j);
    assert forall|i: int| 0 <= i < rest.len() implies 1 <= #[trigger] rest[i] < p by {
        lemma_without_pair_index(s, j, i);
    }
    assert forall|i: int| 0 <= i < rest.len() implies partner(z, #[trigger] rest[i], p)
        != rest[i] by {
        lemma_without_pair_index(s, j, i);
    }
    assert forall|i: int| 0 <= i < rest.len() implies rest.contains(
        partner(z, #[trigger] rest[i], p),
    ) by {
        lemma_partner_stays(s, z, p, j, i);
    }
    assert forall|a: int, b: int|
        0 <= a < rest.len() && 0 <= b < rest.len() && a != b implies rest[a] != rest[b] by {
        lemma_without_pair_index(s, j, a);
        lemma_without_pair_index(s, j, b);
    }
    j
}

/// The product of a list is the product of its last number, of the number at
/// index `j` and of the numbers of the list without that pair.
proof fn lemma_product_with_pair(s: Seq<int>, j: int)
    requires
        0 <= j < s.len() - 1,
    ensures
        product(s) == (s.last() * s[j]) * product(without_pair(s, j)),
{
    let front = s.drop_last();
    lemma_product_without(front, j);
    let r = product(without_pair(s, j));
    let x = s.last();
    let y = s[j];
    assert(front[j] == y);
    assert((y * r) * x == (x * y) * r) by (nonlinear_arith);
}

/// The product of a list of numbers that fall into pairs of product `z` is,
/// modulo `p`, the power of `z` with half the length of the list as
/// exponent.
pub proof fn lemma_product_of_pairs(s: Seq<int>, z: int, p: int)
    requires
        is_prime(p),
        z % p != 0,
        is_paired(s, z, p),
    ensures
        s.len() % 2 == 0,
        product(s) % p == pow(z, s.len() / 2) % p,
    decreases s.len(),
{
    if s.len() == 0 {
        lemma_pow0(z);
    } else {
        let j = lemma_pair_removed(s, z, p);
        let rest = without_pair(s, j);
        let x = s.last();
        let y = s[j];
        assert(rest.len() == s.len() - 2);
        lemma_product_of_pairs(rest, z, p);
        lemma_product_with_pair(s, j);
        lemma_small_mod(x as nat, p as nat);
        lemma_partner(z, x, p);
        let r = product(rest);
        let half = (rest.len() / 2) as nat;
        lemma_mul_mod_noop(x * y, r, p);
        lemma_mul_mod_noop(z, pow(z, half), p);
        lemma_pow_adds(z, 1, half);
        lemma_pow1(z);
    }
}

/// The numbers from `from` to `from + len - 1`.
pub open spec fn run(from: int, len: nat) -> Seq<int> {
    Seq::new(len, |i: int| from + i)
}

/// The product of the numbers from 1 to `m` is `m!`.
proof fn lemma_product_of_run(m: nat)
    ensures
        product(run(1, m)) == factorial(m),
{
    let s = run(1, m);
    assert forall|i: int| 0 <= i < s.len() implies 1 <= #[trigger] s[i] <= s.len() by {}
    lemma_product_of_rearrangement(s);
}

/// Modulo a prime `p`, the inverse of a number between 2 and `p - 2` is
/// another number between 2 and `p - 2`.
proof fn lemma_inverse_in_the_middle(x: int, p: int)
    requires
        is_prime(p),
        2 <= x <= p - 2,
    ensures
        2 <= partner(1, x, p) <= p - 2,
        partner(1, x, p) != x,
{
    let y = partner(1, x, p);
    lemma_small_mod(1, p as nat);
    lemma_small_mod(x as nat, p as nat);
    lemma_partner(1, x, p);
    if y == x {
        lemma_square_is_one(x, p);
    }
    if y == 1 {
        assert(x * 1 == x);
        assert(false);
    }
    if y == p - 1 {
        // x * (p - 1) = 1 = (p - 1) * (p - 1) means x = p - 1
        lemma_square_of_minus_one(p);
        lemma_small_mod((p - 1) as nat, p as nat);
        assert((p - 1) * x == x * (p - 1)) by (nonlinear_arith);
        lemma_cancel_factor(p - 1, x, p - 1, p);
        assert(false);
    }
}

/// The numbers from 2 to `p - 2` fall into pairs of inverses.
proof fn lemma_middle_is_paired(p: int)
    requires
        is_prime(p),
        p >= 3,
    ensures
        is_paired(run(2, (p - 3) as nat), 1, p),
{
    let middle = run(2, (p - 3) as nat);
    lemma_small_mod(1, p as nat);
    assert forall|i: int| 0 <= i < middle.len() implies middle.contains(
        partner(1, #[trigger] middle[i], p),
    ) by {
        let y = partner(1, middle[i], p);
        lemma_inverse_in_the_middle(middle[i], p);
        assert(middle[y - 2] == y);
    }
    assert forall|i: int| 0 <= i < middle.len() implies partner(1, #[trigger] middle[i], p)
        != middle[i] by {
        lemma_inverse_in_the_middle(middle[i], p);
    }
}

/// `(p-1)!` is the product of the numbers from 2 to `p - 2`, times `p - 1`.
proof fn lemma_factorial_around_middle(p: int)
    requires
        p >= 3,
    ensures
        factorial((p - 1) as nat) == product(run(2, (p - 3) as nat)) * (p - 1),
{
    let m = (p - 1) as nat;
    let all = run(1, m);
    lemma_product_of_run(m);
    let front = all.drop_last();
    assert(front.remove(0) =~= run(2, (p - 3) as nat));
    lemma_product_without(front, 0);
    let r = product(run(2, (p - 3) as nat));
    assert(all.last() == p - 1);
    assert(front[0] == 1);
    assert((1 * r) * (p - 1) == r * (p - 1)) by (nonlinear_arith);
}

/// Wilson's theorem: `(p-1)! = -1 (mod p)` for a prime `p`.
pub proof fn lemma_wilson(p: int)
    requires
        is_prime(p),
    ensures
        factorial((p - 1) as nat) % p == p - 1,
{
    if p == 2 {
        assert(factorial(1) == 1) by {
            reveal_with_fuel(factorial, 3);
        }
        lemma_small_mod(1, 2);
    } else {
        let middle = run(2, (p - 3) as nat);
        lemma_middle_is_paired(p);
        lemma_small_mod(1, p as nat);
        lemma_product_of_pairs(middle, 1, p);
        vstd::arithmetic::power::lemma1_pow((middle.len() / 2) as nat);
        lemma_factorial_around_middle(p);
        lemma_mul_mod_noop_left(product(middle), p - 1, p);
        assert(1 * (p - 1) == p - 1);
        lemma_small_mod((p - 1) as nat, p as nat);
    }
}

/// Modulo a prime, a number below the prime that squares to 1 is 1 or -1.
pub proof fn lemma_square_is_one(x: int, p: int)
    requires
        is_prime(p),
        0 <= x < p,
        (x * x) % p == 1,
    ensures
        x == 1 || x == p - 1,
{
    lemma_small_mod(1, p as nat);
    lemma_mod_equivalence(x * x, 1, p);
    assert(x * x - 1 == (x - 1) * (x + 1)) by (nonlinear_arith);
    lemma_euclid(p, x - 1, x + 1);
    if (x - 1) % p == 0 {
        if x >= 1 {
            lemma_small_mod((x - 1) as nat, p as nat);
        } else {
            lemma_multiple_of_multiple(-1, x - 1, p);
        }
    } else {
        if x + 1 < p {
            lemma_small_mod((x + 1) as nat, p as nat);
        }
    }
}

/// `(p - 1)^2 = 1 (mod p)`.
pub proof fn lemma_square_of_minus_one(p: int)
    requires
        p >= 2,
    ensures
        ((p - 1) * (p - 1)) % p == 1,
{
    assert((p - 1) * (p - 1) == (p - 2) * p + 1) by (nonlinear_arith);
    vstd::arithmetic::div_mod::lemma_fundamental_div_mod_converse(
        (p - 1) * (p - 1),
        p,
        p - 2,
        1,
    );
}

/// Euler's criterion for a square: modulo an odd prime `p`, a square `n`
/// that `p` does not divide has `n^((p-1)/2) = 1`.
pub proof fn lemma_euler_of_square(n: int, p: int)
    requires
        is_prime(p),
        p >= 3,
        n % p != 0,
        is_square_mod(n, p),
    ensures
        pow(n, ((p - 1) / 2) as nat) % p == 1,
{
    let x = choose|x: int| #[trigger] is_sqrt_mod(x, n, p);
    let h = ((p - 1) / 2) as nat;
    assert(p % 2 != 0);
    assert(square(x) == x * x);
    if x % p == 0 {
        lemma_multiple_of_multiple(x, x, p);
        assert(false);
    }
    lemma_fermat(x, p);
    // n^h = (x^2)^h = x^(p-1) = 1
    vstd::arithmetic::power::lemma_pow_mod_noop(n, h, p);
    vstd::arithmetic::power::lemma_pow_mod_noop(x * x, h, p);
    vstd::arithmetic::power::lemma_square_is_pow2(x);
    vstd::arithmetic::power::lemma_pow_multiplies(x, 2, h);
    assert(2 * h == p - 1);
}

/// Euler's criterion for a number that is no square: modulo an odd prime
/// `p`, it has `z^((p-1)/2) = -1`.
pub proof fn lemma_euler_of_non_square(z: int, p: int)
    requires
        is_prime(p),
        p >= 3,
        z % p != 0,
        !is_square_mod(z, p),
    ensures
        pow(z, ((p - 1) / 2) as nat) % p == p - 1,
{
    let m = (p - 1) as nat;
    let all = run(1, m);
    assert(p % 2 != 0);
    assert forall|i: int| 0 <= i < all.len() implies all.contains(
        partner(z, #[trigger] all[i], p),
    ) && partner(z, all[i], p) != all[i] by {
        let x = all[i];
        let y = partner(z, x, p);
        lemma_small_mod(x as nat, p as nat);
        lemma_partner(z, x, p);
        assert(all[y - 1] == y);
        if y == x {
            assert(square(x) == x * x);
            assert(is_sqrt_mod(x, z, p));
        }
    }
    assert(is_paired(all, z, p));
    lemma_product_of_pairs(all, z, p);
    lemma_product_of_run(m);
    lemma_wilson(p);
}

/// The root in `[0, p)` that is chosen for a square `z` modulo `p`.
pub open spec fn chosen_root(z: int, p: int) -> int {
    choose|x: int| #[trigger] is_sqrt_mod(x, z, p)
}

/// Modulo an odd prime `p`, some number between 1 and `p - 1` is no square.
pub proof fn lemma_non_square_exists(p: int)
    requires
        is_prime(p),
        p >= 3,
    ensures
        exists|z: int| 1 <= z < p && !#[trigger] is_square_mod(z, p),
{
    if forall|z: int| 1 <= z < p ==> #[trigger] is_square_mod(z, p) {
        // each number has a root; the roots are different numbers between 1
        // and p - 1, so every number is a root, 1 and p - 1 among them; but
        // both are roots of 1 alone
        let m = (p - 1) as nat;
        let roots = Seq::new(m, |i: int| chosen_root(i + 1, p));
        assert forall|i: int| 0 <= i < roots.len() implies is_sqrt_mod(
            #[trigger] roots[i],
            i + 1,
            p,
        ) && roots[i] != 0 by {
            assert(is_square_mod(i + 1, p));
            lemma_small_mod((i + 1) as nat, p as nat);
            if roots[i] == 0 {
                assert(square(0) == 0);
                lemma_small_mod(0, p as nat);
            }
        }
        assert forall|i: int| 0 <= i < roots.len() implies 1 <= #[trigger] roots[i]
            <= roots.len() by {
            assert(is_sqrt_mod(roots[i], i + 1, p));
        }
        assert forall|i: int, j: int|
            0 <= i < roots.len() && 0 <= j < roots.len() && i != j implies roots[i]
            != roots[j] by {
            assert(is_sqrt_mod(roots[i], i + 1, p));
            assert(is_sqrt_mod(roots[j], j + 1, p));
            lemma_small_mod((i + 1) as nat, p as nat);
            lemma_small_mod((j + 1) as nat, p as nat);
        }
        lemma_holds_every_number(roots, 1);
        lemma_holds_every_number(roots, p - 1);
        let i = choose|i: int| 0 <= i < roots.len() && roots[i] == 1;
        let j = choose|j: int| 0 <= j < roots.len() && roots[j] == p - 1;
        assert(is_sqrt_mod(roots[i], i + 1, p));
        assert(is_sqrt_mod(roots[j], j + 1, p));
        assert(square(1) == 1);
        assert(square(p - 1) == (p - 1) * (p - 1));
        lemma_square_of_minus_one(p);
        lemma_small_mod(1, p as nat);
        lemma_small_mod((i + 1) as nat, p as nat);
        lemma_small_mod((j + 1) as nat, p as nat);
        assert(i == j);
        assert(false);
    }
}

} // verus!
