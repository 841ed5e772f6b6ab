//! Sieving polynomials `Q(x) = a x^2 + 2 b x + c`.

use vstd::prelude::*;
use vstd::arithmetic::div_mod::{
    lemma_fundamental_div_mod, lemma_mod_bound, lemma_mod_equivalence, lemma_mod_multiples_basic,
    lemma_mul_mod_noop, lemma_small_mod,
};
use rug::Integer;
use crate::arith::{coprime, is_prime, is_sqrt_mod, legendre_symbol, square};
use crate::big::{
    copy, div_rem, following_prime, from_u64, invert, legendre, less, minus, next_prime, plus,
    symbol, times, val,
};
use crate::primes::lemma_euclid;
use crate::tonelli_shanks::{squares_to, tonelli_result, tonelli_shanks};

verus! {

/// A sieving polynomial with its leading coefficient `a = root^2`.
pub struct Polynomial {
    pub root: Integer,
    pub a: Integer,
    pub b: Integer,
    pub c: Integer,
}

impl Polynomial {
    /// The coefficients fit the number `n` to factor: `a` is the square of
    /// `root`, `b` is a square root of `n` modulo `a`, and `a * c = b^2 - n`.
    pub open spec fn fits(&self, n: int) -> bool {
        &&& val(self.root) >= 3
        &&& val(self.a) == val(self.root) * val(self.root)
        &&& 0 <= val(self.b) < val(self.a)
        &&& (val(self.b) * val(self.b)) % val(self.a) == n % val(self.a)
        &&& val(self.a) * val(self.c) == val(self.b) * val(self.b) - n
    }

    /// The value `Q(x) = a x^2 + 2 b x + c`.
    pub open spec fn value_at(&self, x: int) -> int {
        val(self.a) * (x * x) + 2 * val(self.b) * x + val(self.c)
    }

    /// The left-hand side `a x + b` of the relation that `x` gives.
    pub open spec fn lhs_at(&self, x: int) -> int {
        val(self.a) * x + val(self.b)
    }
}

/// Lifting a root modulo `r` to a root modulo `r^2`: with `b0^2 = n` and
/// `2 b0 inv = 1` modulo `r`, the number `b0 - (b0^2 - n) inv` squares to `n`
/// modulo `r^2`.
pub proof fn lemma_lift_root(n: int, r: int, b0: int, inv: int)
    requires
        r >= 2,
        (b0 * b0) % r == n % r,
        (2 * b0 * inv) % r == 1,
    ensures
        ((b0 - (b0 * b0 - n) * inv) * (b0 - (b0 * b0 - n) * inv) - n) % (r * r) == 0,
{
    let d = b0 * b0 - n;
    let e = 2 * b0 * inv;
    let b1 = b0 - d * inv;
    lemma_mod_equivalence(b0 * b0, n, r);
    lemma_fundamental_div_mod(d, r);
    lemma_fundamental_div_mod(e, r);
    let k = d / r;
    let j = e / r;
    assert(d == r * k);
    assert(e == r * j + 1);
    let u = d * inv;
    let rr = r * r;
    let m = k * k * inv * inv - k * j;
    assert(b1 * b1 == b0 * b0 - 2 * b0 * u + u * u) by (nonlinear_arith)
        requires
            b1 == b0 - u,
    ;
    assert(2 * b0 * u == d * e) by (nonlinear_arith)
        requires
            u == d * inv,
            e == 2 * b0 * inv,
    ;
    assert(d * e == (k * j) * rr + d) by (nonlinear_arith)
        requires
            e == r * j + 1,
            d == r * k,
            rr == r * r,
    ;
    assert(u * u == (k * k * inv * inv) * rr) by (nonlinear_arith)
        requires
            u == d * inv,
            d == r * k,
            rr == r * r,
    ;
    assert(m * rr == (k * k * inv * inv) * rr - (k * j) * rr) by (nonlinear_arith)
        requires
            m == k * k * inv * inv - k * j,
    ;
    assert(b1 * b1 - n == m * (r * r));
    assert(r * r > 0) by (nonlinear_arith)
        requires
            r >= 2,
    ;
    lemma_mod_multiples_basic(m, r * r);
}

/// Reducing a number modulo `a` does not change its square modulo `a`.
pub proof fn lemma_square_of_residue(b1: int, n: int, a: int)
    requires
        a > 0,
        (b1 * b1 - n) % a == 0,
    ensures
        ((b1 % a) * (b1 % a) - n) % a == 0,
        ((b1 % a) * (b1 % a)) % a == n % a,
{
    let b = b1 % a;
    lemma_mul_mod_noop(b1, b1, a);
    lemma_mod_equivalence(b1 * b1, n, a);
    lemma_mod_equivalence(b * b, n, a);
}

/// An odd prime `p` has no common factor with twice a non-zero residue.
pub proof fn lemma_twice_residue_coprime(b0: int, p: int)
    requires
        is_prime(p),
        p % 2 == 1,
        0 < b0 < p,
    ensures
        coprime(2 * b0, p),
{
    assert forall|d: int| d > 1 implies !(#[trigger] ((2 * b0) % d) == 0 && p % d == 0) by {
        if (2 * b0) % d == 0 && p % d == 0 {
            if d > p {
                lemma_small_mod(p as nat, d as nat);
            }
            // d divides the prime p, so d = p, and p divides 2 * b0 < 2 * p
            assert(d == p);
            lemma_fundamental_div_mod(2 * b0, p);
            let q = (2 * b0) / p;
            assert(2 * b0 == p * q);
            assert(q == 1) by (nonlinear_arith)
                requires
                    2 * b0 == p * q,
                    0 < 2 * b0 < 2 * p,
                    p > 0,
            ;
            assert(false);
        }
    }
}

/// A square root `b0` of `n` modulo a prime `p`, twice of which is co-prime
/// to `p`, shows that `(n|p) = 1`.
proof fn lemma_root_is_of_residue(n: int, p: int, b0: int)
    requires
        is_prime(p),
        0 <= b0 < p,
        (b0 * b0) % p == n % p,
        coprime(2 * b0, p),
    ensures
        legendre_symbol(n, p) == 1,
{
    assert(square(b0) == b0 * b0);
    assert(is_sqrt_mod(b0, n, p));
    if n % p == 0 {
        lemma_euclid(p, b0, b0);
        lemma_small_mod(b0 as nat, p as nat);
        assert(b0 == 0);
        assert((2 * b0) % p == 0 && p % p == 0) by {
            lemma_small_mod(0, p as nat);
            vstd::arithmetic::div_mod::lemma_mod_self_0(p);
        }
        assert(false);
    }
}

/// The square root `b0` of `n` modulo `root` can be lifted to a polynomial:
/// `root` is 3 at least, `b0` squares to `n` modulo `root`, and twice `b0`
/// has an inverse modulo `root`.
pub open spec fn has_lift(n: int, root: int, b0: int) -> bool {
    root >= 3 && square(b0) % root == n % root && coprime(2 * b0, root)
}

/// `inv` is the inverse of `x` modulo `m`, in `[0, m)`.
pub open spec fn is_inverse_mod(inv: int, x: int, m: int) -> bool {
    0 <= inv < m && (x * inv) % m == 1
}

/// The square root `b0` of `n` modulo `root`, lifted with the inverse `inv`
/// of twice `b0` to a square root modulo `root^2`:
/// `(b0 - (b0^2 - n) * inv) mod root^2`.
pub open spec fn lift_with(n: int, root: int, b0: int, inv: int) -> int {
    (b0 - (b0 * b0 - n) * inv) % (root * root)
}

/// `b` is the square root `b0` of `n` modulo `root`, lifted with the inverse
/// of twice `b0` modulo `root`.
pub open spec fn is_lift(b: int, n: int, root: int, b0: int) -> bool {
    exists|inv: int| #[trigger] is_inverse_mod(inv, 2 * b0, root) && b == lift_with(n, root, b0, inv)
}

/// The polynomial with leading coefficient `root^2` that the square root
/// `b0` of `n` modulo `root` gives.
///
/// `b` is `b0` lifted to a square root of `n` modulo `root^2`, and
/// `c = (b^2 - n) / root^2`. There is no polynomial when `root` is below 3,
/// when `b0` does not square to `n` modulo `root`, or when twice `b0` has no
/// inverse modulo `root`.
pub fn lift_root(n: &Integer, root: &Integer, b0: &Integer) -> (r: Option<Polynomial>)
    ensures
        r.is_some() <==> has_lift(val(*n), val(*root), val(*b0)),
        r.is_some() ==> r.unwrap().fits(val(*n)) && val(r.unwrap().root) == val(*root) && is_lift(
            val(r.unwrap().b),
            val(*n),
            val(*root),
            val(*b0),
        ),
{
    let three = from_u64(3);
    if less(root, &three) {
        return None;
    }
    let (_, reduced) = div_rem(n, root);
    proof {
        lemma_mod_bound(val(*n), val(*root));
        vstd::arithmetic::div_mod::lemma_mod_twice(val(*n), val(*root));
    }
    if !squares_to(b0, &reduced, root) {
        return None;
    }
    let twice = plus(b0, b0);
    match invert(&twice, root) {
        None => None,
        Some(inv) => {
            let a = times(root, root);
            let b0_squared = times(b0, b0);
            let d = minus(&b0_squared, n);
            let d_inv = times(&d, &inv);
            let b1 = minus(b0, &d_inv);
            proof {
                let r = val(*root);
                assert(val(a) >= 9) by (nonlinear_arith)
                    requires
                        val(a) == r * r,
                        r >= 3,
                ;
                lemma_small_mod(1, r as nat);
                assert(2 * val(*b0) * val(inv) == val(twice) * val(inv)) by (nonlinear_arith)
                    requires
                        val(twice) == val(*b0) + val(*b0),
                ;
                assert(square(val(*b0)) == val(*b0) * val(*b0));
                lemma_lift_root(val(*n), r, val(*b0), val(inv));
                lemma_square_of_residue(val(b1), val(*n), val(a));
                lemma_mod_bound(val(b1), val(a));
            }
            let (_, b) = div_rem(&b1, &a);
            let b_squared = times(&b, &b);
            let excess = minus(&b_squared, n);
            let (c, _) = div_rem(&excess, &a);
            proof {
                lemma_fundamental_div_mod(val(excess), val(a));
                assert((2 * val(*b0)) * val(inv) == val(twice) * val(inv)) by (nonlinear_arith)
                    requires
                        val(twice) == val(*b0) + val(*b0),
                ;
                assert(is_inverse_mod(val(inv), 2 * val(*b0), val(*root)));
                assert(val(b) == lift_with(val(*n), val(*root), val(*b0), val(inv)));
            }
            Some(Polynomial { root: copy(root), a, b, c })
        },
    }
}

/// `found` is what [`polynomial_for`] may give for `n` and `root`: there is
/// a polynomial exactly when the square root that the root routine returns
/// for them can be lifted.
pub open spec fn is_lift_of_some_root(found: bool, n: int, root: int) -> bool {
    exists|b0: int| #[trigger] tonelli_result(n, root, b0) && (found <==> has_lift(n, root, b0))
}

/// The polynomial with leading coefficient `root^2`, if `root` admits one.
///
/// `b` is a square root of `n` modulo `root`, lifted to a square root modulo
/// `root^2`, and `c = (b^2 - n) / root^2`. There is no polynomial when `root`
/// is below 3, when no square root of `n` modulo `root` is found, or when
/// twice that root has no inverse. An odd prime `root` has a polynomial
/// exactly when `(n|root) = 1`.
pub fn polynomial_for(n: &Integer, root: &Integer) -> (r: Option<Polynomial>)
    ensures
        r.is_some() ==> r.unwrap().fits(val(*n)) && val(r.unwrap().root) == val(*root),
        is_lift_of_some_root(r.is_some(), val(*n), val(*root)),
        is_prime(val(*root)) && val(*root) % 2 == 1 ==> (r.is_some() <==> legendre_symbol(
            val(*n),
            val(*root),
        ) == 1),
{
    let three = from_u64(3);
    if less(root, &three) {
        proof {
            let b0: int = if val(*n) % val(*root) != 0 && val(*root) == 2 {
                2
            } else {
                0
            };
            assert(tonelli_result(val(*n), val(*root), b0));
        }
        return None;
    }
    let b0 = tonelli_shanks(n, root);
    proof {
        assert(tonelli_result(val(*n), val(*root), val(b0)));
        if is_prime(val(*root)) && val(*root) % 2 == 1 {
            if legendre_symbol(val(*n), val(*root)) == 1 {
                assert(is_sqrt_mod(val(b0), val(*n), val(*root)));
                if val(b0) == 0 {
                    assert(square(0) == 0);
                    lemma_small_mod(0, val(*root) as nat);
                }
                lemma_twice_residue_coprime(val(b0), val(*root));
            }
            if has_lift(val(*n), val(*root), val(b0)) {
                assert(square(val(b0)) == val(b0) * val(b0));
                lemma_root_is_of_residue(val(*n), val(*root), val(b0));
            }
        }
    }
    lift_root(n, root, &b0)
}

/// The cursor of the polynomial generator after `k` steps from `start`: each
/// step moves it to what the backend takes for the next prime.
pub open spec fn root_at(start: int, k: nat) -> int
    decreases k,
{
    if k == 0 {
        start
    } else {
        following_prime(root_at(start, (k - 1) as nat))
    }
}

/// One step of the cursor of the polynomial generator: the next prime above
/// the cursor, and whether it is accepted as a root, which it is when
/// `(n|A) = 1`.
///
/// The new cursor is always above the old one, so no root is ever produced
/// twice.
pub fn next_root(n: &Integer, cursor: &Integer) -> (r: (Integer, bool))
    ensures
        val(r.0) == following_prime(val(*cursor)),
        val(r.0) > val(*cursor),
        r.1 == (symbol(val(*n), val(r.0)) == 1),
        is_prime(val(r.0)) && val(r.0) % 2 == 1 ==> r.1 == (legendre_symbol(val(*n), val(r.0))
            == 1),
{
    let root = next_prime(cursor);
    let accepted = legendre(n, &root) == 1;
    (root, accepted)
}

/// The cursor has made `k` steps from `start`, and none of the roots before
/// the last was accepted.
pub open spec fn is_first_accepted(n: int, start: int, k: nat, cursor: int) -> bool {
    &&& cursor == root_at(start, k)
    &&& forall|j: nat| 1 <= j < k ==> symbol(n, #[trigger] root_at(start, j)) != 1
}

/// A search of `max_steps` steps at most ends after `k` steps at `cursor`:
/// with the first root that was accepted, or after all its steps.
pub open spec fn is_search_of(
    n: int,
    start: int,
    max_steps: nat,
    k: nat,
    cursor: int,
    found: bool,
) -> bool {
    &&& k <= max_steps
    &&& max_steps > 0 ==> k >= 1
    &&& !found ==> k == max_steps
    &&& is_first_accepted(n, start, k, cursor)
}

/// Moves the cursor on until a root is accepted, for `max_steps` steps at
/// most: the result is the new cursor and whether it is an accepted root.
///
/// Every prime that the cursor passes on the way was turned away, so no
/// accepted root is skipped; when none is accepted, the cursor has made all
/// its steps.
pub fn seek_root(n: &Integer, cursor: &Integer, max_steps: u64) -> (r: (Integer, bool))
    ensures
        r.1 == (max_steps > 0 && symbol(val(*n), val(r.0)) == 1),
        exists|k: nat| #[trigger]
            is_search_of(val(*n), val(*cursor), max_steps as nat, k, val(r.0), r.1),
        max_steps > 0 ==> val(r.0) > val(*cursor),
{
    let mut at = copy(cursor);
    let mut steps: u64 = 0;
    while steps < max_steps
        invariant
            steps <= max_steps,
            is_first_accepted(val(*n), val(*cursor), steps as nat, val(at)),
            steps > 0 ==> symbol(val(*n), val(at)) != 1 && val(at) > val(*cursor),
        decreases max_steps - steps,
    {
        let (next, accepted) = next_root(n, &at);
        steps = steps + 1;
        at = next;
        if accepted {
            assert(is_search_of(
                val(*n),
                val(*cursor),
                max_steps as nat,
                steps as nat,
                val(at),
                true,
            ));
            return (at, true);
        }
    }
    let r = (at, false);
    assert(is_search_of(
        val(*n),
        val(*cursor),
        max_steps as nat,
        steps as nat,
        val(r.0),
        r.1,
    ));
    r
}

/// One step of the polynomial generator: moves the cursor to the next prime
/// and gives the polynomial of that prime when `(n|A) = 1` and `A` admits one.
///
/// The new cursor is the first component of the result. It is always above
/// the old one, so no value of `A` is ever produced twice.
pub fn next_polynomial(n: &Integer, cursor: &Integer) -> (r: (Integer, Option<Polynomial>))
    ensures
        val(r.0) == following_prime(val(*cursor)),
        val(r.0) > val(*cursor),
        r.1.is_some() ==> r.1.unwrap().fits(val(*n)) && val(r.1.unwrap().root) == val(r.0)
            && symbol(val(*n), val(r.0)) == 1,
        symbol(val(*n), val(r.0)) != 1 ==> r.1.is_none(),
        symbol(val(*n), val(r.0)) == 1 ==> is_lift_of_some_root(
            r.1.is_some(),
            val(*n),
            val(r.0),
        ),
        is_prime(val(r.0)) && val(r.0) % 2 == 1 ==> r.1.is_some() == (symbol(
            val(*n),
            val(r.0),
        ) == 1) && r.1.is_some() == (legendre_symbol(val(*n), val(r.0)) == 1),
{
    let (root, accepted) = next_root(n, cursor);
    if !accepted {
        return (root, None);
    }
    let poly = polynomial_for(n, &root);
    (root, poly)
}

} // verus!
