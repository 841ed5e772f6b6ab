//! Relations: the congruences that the sieve collects.

use vstd::prelude::*;
use rug::Integer;
use vstd::arithmetic::div_mod::lemma_fundamental_div_mod;
use crate::arith::{
    abs, lemma_abs_of_product, lemma_congruent_products, lemma_exact_quotient,
    lemma_multiple_of_multiple, lemma_sum_of_multiples,
};
use crate::big::val;
use crate::primes::{all_prime, lemma_residue_multiplies};
use crate::smooth::residue;

verus! {

/// A relation `(X, (Y, A))`: a congruence `X^2 = A^2 * Y (mod N)`.
pub type Relation = (Integer, (Integer, Integer));

/// The three numbers of a relation.
pub struct Triple {
    pub x: int,
    pub y: int,
    pub a: int,
}

/// The numbers that a relation holds.
pub open spec fn triple(r: Relation) -> Triple {
    Triple { x: val(r.0), y: val(r.1.0), a: val(r.1.1) }
}

/// The numbers that each relation of a list holds.
pub open spec fn triples(rs: Seq<Relation>) -> Seq<Triple> {
    rs.map_values(|r: Relation| triple(r))
}

impl Triple {
    /// The relation invariant with a cofactor: `c^2` divides `Y`, and
    /// `X^2 = A^2 * (Y / c^2) (mod n)`. A relation found by the sieve has the
    /// cofactor 1; one combined from two partial relations has their common
    /// large prime as cofactor, once in `A` and twice in `Y`.
    pub open spec fn holds_with(self, n: int, c: int) -> bool {
        &&& c != 0
        &&& self.y % (c * c) == 0
        &&& (self.x * self.x - self.a * self.a * (self.y / (c * c))) % n == 0
    }

    /// The relation invariant: `X^2 = A^2 * Y (mod n)`.
    pub open spec fn holds(self, n: int) -> bool {
        (self.x * self.x - self.a * self.a * self.y) % n == 0
    }

    /// The relation is accounted for with the cofactor `c`: its right-hand
    /// value is not zero, trial division leaves `c^2` of it, and
    /// `X^2 = A^2 (Y / c^2) (mod n)`. A relation that the sieve finds has the
    /// cofactor 1, one combined from two partial relations their large
    /// prime.
    pub open spec fn accounted(self, fb: Seq<u64>, n: int, c: int) -> bool {
        &&& c >= 1
        &&& self.y != 0
        &&& residue(abs(self.y), fb, fb.len() as int) == c * c
        &&& self.holds_with(n, c)
    }

    /// The relation is accounted for with some cofactor.
    pub open spec fn is_accounted(self, fb: Seq<u64>, n: int) -> bool {
        exists|c: int| #[trigger] self.accounted(fb, n, c)
    }

    /// The partial relation waits for a partner: it satisfies the relation
    /// invariant, its right-hand value is not zero, and trial division
    /// leaves `large` of it, which therefore divides it.
    pub open spec fn waits_for(self, fb: Seq<u64>, n: int, large: int) -> bool {
        &&& large >= 1
        &&& self.y != 0
        &&& self.y % large == 0
        &&& residue(abs(self.y), fb, fb.len() as int) == large
        &&& self.holds(n)
    }
}

/// The full relation that two partial relations with the same large prime
/// make: the products of their parts, with the large prime on the `A` side.
pub open spec fn combined(held: Triple, fresh: Triple, large: int) -> Triple {
    Triple { x: held.x * fresh.x, y: fresh.y * held.y, a: held.a * fresh.a * large }
}

/// A relation that satisfies the invariant and factors completely over the
/// factor base is accounted for with the cofactor 1.
pub proof fn lemma_smooth_relation_is_accounted(t: Triple, fb: Seq<u64>, n: int)
    requires
        t.holds(n),
        t.y != 0,
        residue(abs(t.y), fb, fb.len() as int) == 1,
    ensures
        t.accounted(fb, n, 1),
{
    assert(1int * 1 == 1);
    assert(t.y / 1 == t.y && t.y % 1 == 0);
}

/// The square of a product is the product of the squares.
proof fn lemma_square_of_product(x: int, y: int)
    ensures
        (x * y) * (x * y) == (x * x) * (y * y),
{
    assert((x * y) * (x * y) == (x * x) * (y * y)) by (nonlinear_arith);
}

/// The right-hand side of a combined relation without the square of the
/// large prime is the product of the two right-hand sides: with
/// `hy = l * hs` and `fy = l * fs`,
/// `(ha fa l)^2 (fs hs) = (ha^2 hy) (fa^2 fy)`.
proof fn lemma_combined_rhs(ha: int, hs: int, fa: int, fs: int, l: int)
    ensures
        ((ha * fa * l) * (ha * fa * l)) * (fs * hs) == ((ha * ha) * (l * hs)) * ((fa * fa) * (l
            * fs)),
{
    let u = ha * fa;
    let uu = u * u;
    let ll = l * l;
    let haa = ha * ha;
    let faa = fa * fa;
    lemma_square_of_product(u, l);
    lemma_square_of_product(ha, fa);
    assert(((u * l) * (u * l)) * (fs * hs) == (uu * ll) * (fs * hs));
    assert((uu * ll) * (fs * hs) == (haa * (l * hs)) * (faa * (l * fs))) by (nonlinear_arith)
        requires
            uu == haa * faa,
            ll == l * l,
    ;
}

/// Two partial relations with the same large prime, each of which satisfies
/// the relation invariant, combine into a relation that satisfies it with
/// that prime as cofactor: the prime is once in `A` and twice in `Y`, so
/// `X^2 = A^2 * (Y / large^2) (mod n)`.
pub proof fn lemma_combined_relation(held: Triple, fresh: Triple, large: int, n: int)
    requires
        n > 0,
        large >= 1,
        held.holds(n),
        fresh.holds(n),
        held.y % large == 0,
        fresh.y % large == 0,
    ensures
        combined(held, fresh, large).holds_with(n, large),
{
    let both = combined(held, fresh, large);
    let hs = held.y / large;
    let fs = fresh.y / large;
    let ll = large * large;
    lemma_fundamental_div_mod(held.y, large);
    lemma_fundamental_div_mod(fresh.y, large);
    assert(ll >= 1) by (nonlinear_arith)
        requires
            large >= 1,
            ll == large * large,
    ;
    assert(both.y == ll * (fs * hs)) by (nonlinear_arith)
        requires
            both.y == fresh.y * held.y,
            held.y == large * hs,
            fresh.y == large * fs,
            ll == large * large,
    ;
    lemma_exact_quotient(ll, fs * hs);
    assert(both.y % ll == 0 && both.y / ll == fs * hs);
    let p = held.x * held.x;
    let q = (held.a * held.a) * held.y;
    let u = fresh.x * fresh.x;
    let v = (fresh.a * fresh.a) * fresh.y;
    assert(held.a * held.a * held.y == q);
    assert(fresh.a * fresh.a * fresh.y == v);
    lemma_congruent_products(p, q, u, v, n);
    lemma_square_of_product(held.x, fresh.x);
    lemma_combined_rhs(held.a, hs, fresh.a, fs, large);
    assert(both.x * both.x == p * u);
    assert(both.a * both.a * (both.y / ll) == q * v);
}

/// Two partial relations that wait with the same large prime combine into a
/// relation that is accounted for with that prime as its cofactor.
pub proof fn lemma_combined_is_accounted(
    held: Triple,
    fresh: Triple,
    large: int,
    fb: Seq<u64>,
    n: int,
)
    requires
        n > 0,
        all_prime(fb),
        held.waits_for(fb, n, large),
        fresh.waits_for(fb, n, large),
    ensures
        combined(held, fresh, large).accounted(fb, n, large),
{
    lemma_combined_relation(held, fresh, large, n);
    lemma_abs_of_product(fresh.y, held.y);
    lemma_residue_multiplies(abs(fresh.y), abs(held.y), fb, fb.len() as int);
}

/// Two partial relations with the same large prime, each of which satisfies
/// the relation invariant, combine into a relation that satisfies it as it
/// stands, provided that `(large^2 - 1) * (X * X')^2` is a multiple of `n`.
pub proof fn lemma_combined_relation_plain(held: Triple, fresh: Triple, large: int, n: int)
    requires
        n > 0,
        large >= 1,
        held.holds(n),
        fresh.holds(n),
        held.y % large == 0,
        fresh.y % large == 0,
        ((large * large - 1) * ((held.x * fresh.x) * (held.x * fresh.x))) % n == 0,
    ensures
        combined(held, fresh, large).holds(n),
{
    let c = combined(held, fresh, large);
    lemma_combined_relation(held, fresh, large, n);
    let ll = large * large;
    let xx = c.x * c.x;
    let s = c.y / ll;
    assert(ll >= 1) by (nonlinear_arith)
        requires
            large >= 1,
            ll == large * large,
    ;
    lemma_fundamental_div_mod(c.y, ll);
    let u = xx - c.a * c.a * s;
    let v = (ll - 1) * xx;
    lemma_multiple_of_multiple(ll, u, n);
    lemma_multiple_of_multiple(-1, v, n);
    lemma_sum_of_multiples(ll * u, -1 * v, n);
    assert(ll * u + -1 * v == xx - c.a * c.a * c.y) by (nonlinear_arith)
        requires
            u == xx - c.a * c.a * s,
            v == (ll - 1) * xx,
            c.y == ll * s,
    ;
}

} // verus!
