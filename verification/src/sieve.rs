//! The log sieve: which positions of the interval are worth a trial division.
//!
//! Positions are counted from the left edge of the sieve interval, so that
//! position `t` stands for `x = t - M`. Each prime of the factor base has two
//! roots; every position congruent to a root modulo the prime receives the
//! prime's logarithmic weight. The weights are fixed-point integers.

use vstd::prelude::*;
use vstd::arithmetic::div_mod::{
    lemma_add_mod_noop_right, lemma_fundamental_div_mod_converse, lemma_mod_bound,
    lemma_mod_equivalence, lemma_mod_multiples_vanish, lemma_small_mod,
};
use vstd::arithmetic::power::{lemma_pow_mod_noop, pow};
use rug::Integer;
use crate::arith::{abs, is_prime, legendre_symbol, lemma_divides_signed, lemma_exact_quotient};
use crate::big::{
    copy, div_rem, equal, from_i64, from_u64, less, minus, plus, pow_mod, times, to_i64, to_u64,
    val,
};
use crate::polynomial::{polynomial_for, Polynomial};
use crate::relation::{lemma_smooth_relation_is_accounted, triple, triples, Relation, Triple};
use crate::serial_MPQS::InitResult;
use crate::smooth::{lemma_residue_of_zero, residue, trial_divide};
use crate::squares::{exponents_of, lemma_trial_division_factorization, power_product};

verus! {

/// Width of a sieve block: a block covers `SIEVE_SIZE + 1` positions.
pub const SIEVE_SIZE: i64 = 32768;

/// Largest prime that the sieve accepts in a factor base.
pub const MAX_PRIME: u64 = 0xFFFF_FFFF;

/// Largest number of primes that the sieve accepts in a factor base.
pub const MAX_PRIMES: usize = 0x7FFF_FFFF;

/// Every prime of the factor base lies in `[2, MAX_PRIME]`.
pub open spec fn primes_in_range(fb: Seq<u64>) -> bool {
    forall|i: int| 0 <= i < fb.len() ==> 2 <= #[trigger] fb[i] <= MAX_PRIME
}

/// Every root lies in `[0, p)` for its prime `p`.
pub open spec fn roots_in_range(fb: Seq<u64>, roots: Seq<i64>) -> bool {
    &&& roots.len() == fb.len()
    &&& forall|i: int| 0 <= i < fb.len() ==> 0 <= #[trigger] roots[i] < fb[i]
}

/// The weight that a root `root` of the prime `p` gives to position `t`.
pub open spec fn hit(root: int, p: int, w: int, t: int) -> int {
    if t % p == root {
        w
    } else {
        0
    }
}

/// The weight that the prime of index `i` gives to position `t`: nothing
/// below `min_prime`, else its weight once for each root that `t` meets.
pub open spec fn prime_score(
    fb: Seq<u64>,
    tlog: Seq<u32>,
    min_prime: u64,
    r1: Seq<i64>,
    r2: Seq<i64>,
    i: int,
    t: int,
) -> int {
    if fb[i] < min_prime {
        0
    } else {
        hit(r1[i] as int, fb[i] as int, tlog[i] as int, t) + hit(
            r2[i] as int,
            fb[i] as int,
            tlog[i] as int,
            t,
        )
    }
}

/// The weight that the first `k` primes together give to position `t`.
pub open spec fn score(
    fb: Seq<u64>,
    tlog: Seq<u32>,
    min_prime: u64,
    r1: Seq<i64>,
    r2: Seq<i64>,
    k: int,
    t: int,
) -> int
    decreases k,
{
    if k <= 0 {
        0
    } else {
        score(fb, tlog, min_prime, r1, r2, k - 1, t) + prime_score(
            fb,
            tlog,
            min_prime,
            r1,
            r2,
            k - 1,
            t,
        )
    }
}

/// Where a root that stood at `root` stands after the block start has moved
/// `step` positions to the right.
pub open spec fn shifted_root(root: int, p: int, step: int) -> int {
    (root - step) % p
}

/// A score never exceeds two weights for each prime counted.
pub proof fn lemma_score_bound(
    fb: Seq<u64>,
    tlog: Seq<u32>,
    min_prime: u64,
    r1: Seq<i64>,
    r2: Seq<i64>,
    k: int,
    t: int,
)
    requires
        0 <= k <= fb.len(),
        tlog.len() == fb.len(),
        r1.len() == fb.len(),
        r2.len() == fb.len(),
    ensures
        0 <= score(fb, tlog, min_prime, r1, r2, k, t) <= 2 * k * 0xFFFF_FFFF,
    decreases k,
{
    if k > 0 {
        lemma_score_bound(fb, tlog, min_prime, r1, r2, k - 1, t);
    }
}

/// Positions strictly between two consecutive multiples of `p` above a root
/// do not meet the root.
proof fn lemma_between_hits(root: int, p: int, q: int, d: int)
    requires
        p >= 2,
        0 <= root < p,
        q >= 0,
        0 <= d < p,
    ensures
        ((root + q * p + d) % p == root) == (d == 0),
{
    lemma_mod_multiples_vanish(q, root + d, p);
    assert(q * p == p * q) by (nonlinear_arith);
    if root + d < p {
        lemma_small_mod((root + d) as nat, p as nat);
    } else {
        lemma_fundamental_div_mod_converse(root + d, p, 1, root + d - p);
    }
}

/// Adds `w` to every position of `sbuf` that meets the root `start` of `p`,
/// and returns where the root stands in the next block.
fn mark(sbuf: &mut Vec<u64>, start: i64, p: u64, w: u32) -> (next: i64)
    requires
        2 <= p <= MAX_PRIME,
        0 <= start < p,
        old(sbuf).len() <= SIEVE_SIZE + 1,
        forall|j: int| 0 <= j < old(sbuf).len() ==> #[trigger] old(sbuf)[j] + w <= u64::MAX,
    ensures
        final(sbuf).len() == old(sbuf).len(),
        forall|j: int|
            0 <= j < old(sbuf).len() ==> #[trigger] final(sbuf)[j] == old(sbuf)[j] + hit(
                start as int,
                p as int,
                w as int,
                j,
            ),
        next == shifted_root(start as int, p as int, old(sbuf).len() as int),
        0 <= next < p,
{
    let len: i64 = sbuf.len() as i64;
    let step: i64 = p as i64;
    let mut pos: i64 = start;
    let ghost mut q: int = 0;
    proof {
        assert forall|j: int| 0 <= j < start implies hit(start as int, p as int, w as int, j)
            == 0 by {
            lemma_small_mod(j as nat, p as nat);
        }
    }
    while pos < len
        invariant
            2 <= p <= MAX_PRIME,
            step == p,
            0 <= start < p,
            len == old(sbuf).len(),
            len <= SIEVE_SIZE + 1,
            sbuf.len() == len,
            q >= 0,
            pos == start + q * p,
            pos < len + p,
            forall|j: int| 0 <= j < len ==> #[trigger] old(sbuf)[j] + w <= u64::MAX,
            forall|j: int|
                0 <= j < len && j < pos ==> #[trigger] sbuf[j] == old(sbuf)[j] + hit(
                    start as int,
                    p as int,
                    w as int,
                    j,
                ),
            forall|j: int| pos <= j < len ==> #[trigger] sbuf[j] == old(sbuf)[j],
        decreases len + p - pos,
    {
        let at: usize = pos as usize;
        let sum: u64 = sbuf[at] + w as u64;
        let ghost before = sbuf@;
        sbuf.set(at, sum);
        proof {
            assert forall|j: int| 0 <= j < len && j < pos + p implies #[trigger] sbuf[j]
                == old(sbuf)[j] + hit(start as int, p as int, w as int, j) by {
                if j >= pos {
                    lemma_between_hits(start as int, p as int, q, j - pos);
                    assert(sbuf[j] == if j == pos {
                        (old(sbuf)[j] + w) as u64
                    } else {
                        old(sbuf)[j]
                    });
                } else {
                    assert(sbuf[j] == before[j]);
                }
            }
            assert((q + 1) * p == q * p + p) by (nonlinear_arith);
            q = q + 1;
        }
        pos = pos + step;
    }
    proof {
        assert forall|j: int| 0 <= j < len implies #[trigger] sbuf[j] == old(sbuf)[j] + hit(
            start as int,
            p as int,
            w as int,
            j,
        ) by {}
        // pos is congruent to start and lies in [len, len + p)
        lemma_mod_multiples_vanish(q, start - len, p as int);
        assert(q * p == p * q) by (nonlinear_arith);
        lemma_small_mod((pos - len) as nat, p as nat);
    }
    pos - len
}

/// A buffer of `len` zero scores.
fn zeros(len: usize) -> (sbuf: Vec<u64>)
    ensures
        sbuf.len() == len,
        forall|j: int| 0 <= j < len ==> #[trigger] sbuf[j] == 0,
{
    let mut sbuf: Vec<u64> = Vec::new();
    while sbuf.len() < len
        invariant
            sbuf.len() <= len,
            forall|j: int| 0 <= j < sbuf.len() ==> #[trigger] sbuf[j] == 0,
        decreases len - sbuf.len(),
    {
        sbuf.push(0);
    }
    sbuf
}

/// The roots after one block of `len` positions: those of the primes that the
/// sieve walks are carried over to the next block, the others stay.
pub open spec fn roots_after_block(fb: Seq<u64>, min_prime: u64, roots: Seq<i64>, len: int) -> Seq<
    i64,
> {
    Seq::new(
        roots.len(),
        |i: int|
            if fb[i] < min_prime {
                roots[i]
            } else {
                shifted_root(roots[i] as int, fb[i] as int, len) as i64
            },
    )
}

/// Sieves one block of `len` positions. On entry `s1` and `s2` hold, for each
/// prime, the first position of the block that meets each of its roots; on
/// exit they hold the same for the block that follows. The result gives the
/// score of every position of the block.
pub fn sieve_block(
    fb: &Vec<u64>,
    tlog: &Vec<u32>,
    min_prime: u64,
    len: usize,
    s1: &mut Vec<i64>,
    s2: &mut Vec<i64>,
) -> (sbuf: Vec<u64>)
    requires
        fb.len() <= MAX_PRIMES,
        tlog.len() == fb.len(),
        primes_in_range(fb@),
        roots_in_range(fb@, old(s1)@),
        roots_in_range(fb@, old(s2)@),
        len <= SIEVE_SIZE + 1,
    ensures
        sbuf.len() == len,
        forall|j: int|
            0 <= j < len ==> #[trigger] sbuf[j] == score(
                fb@,
                tlog@,
                min_prime,
                old(s1)@,
                old(s2)@,
                fb.len() as int,
                j,
            ),
        final(s1)@ == roots_after_block(fb@, min_prime, old(s1)@, len as int),
        final(s2)@ == roots_after_block(fb@, min_prime, old(s2)@, len as int),
        roots_in_range(fb@, final(s1)@),
        roots_in_range(fb@, final(s2)@),
{
    let mut sbuf = zeros(len);
    let ghost r1 = s1@;
    let ghost r2 = s2@;
    let mut i: usize = 0;
    while i < fb.len()
        invariant
            i <= fb.len(),
            fb.len() <= MAX_PRIMES,
            tlog.len() == fb.len(),
            primes_in_range(fb@),
            roots_in_range(fb@, r1),
            roots_in_range(fb@, r2),
            roots_in_range(fb@, s1@),
            roots_in_range(fb@, s2@),
            len <= SIEVE_SIZE + 1,
            sbuf.len() == len,
            forall|j: int|
                0 <= j < len ==> #[trigger] sbuf[j] == score(
                    fb@,
                    tlog@,
                    min_prime,
                    r1,
                    r2,
                    i as int,
                    j,
                ),
            forall|k: int|
                0 <= k < i ==> #[trigger] s1[k] == roots_after_block(
                    fb@,
                    min_prime,
                    r1,
                    len as int,
                )[k],
            forall|k: int|
                0 <= k < i ==> #[trigger] s2[k] == roots_after_block(
                    fb@,
                    min_prime,
                    r2,
                    len as int,
                )[k],
            forall|k: int| i <= k < fb.len() ==> #[trigger] s1[k] == r1[k],
            forall|k: int| i <= k < fb.len() ==> #[trigger] s2[k] == r2[k],
        decreases fb.len() - i,
    {
        let p = fb[i];
        if p >= min_prime {
            let w = tlog[i];
            proof {
                assert forall|j: int| 0 <= j < len implies #[trigger] sbuf[j] + w + w
                    <= u64::MAX by {
                    lemma_score_bound(fb@, tlog@, min_prime, r1, r2, i as int, j);
                    assert(2 * (i as int) * 0xFFFF_FFFF + 2 * 0xFFFF_FFFF <= u64::MAX)
                        by (nonlinear_arith)
                        requires
                            0 <= i < 0x7FFF_FFFF,
                    ;
                }
            }
            let ghost zero_pass = sbuf@;
            let next1 = mark(&mut sbuf, s1[i], p, w);
            let ghost first_pass = sbuf@;
            assert forall|j: int| 0 <= j < len implies #[trigger] sbuf[j] + w <= u64::MAX by {
                assert(sbuf[j] == zero_pass[j] + hit(r1[i as int] as int, p as int, w as int, j));
            }
            let next2 = mark(&mut sbuf, s2[i], p, w);
            s1.set(i, next1);
            s2.set(i, next2);
            proof {
                assert forall|j: int| 0 <= j < len implies #[trigger] sbuf[j] == score(
                    fb@,
                    tlog@,
                    min_prime,
                    r1,
                    r2,
                    i + 1,
                    j,
                ) by {
                    assert(first_pass[j] == zero_pass[j] + hit(
                        r1[i as int] as int,
                        p as int,
                        w as int,
                        j,
                    ));
                    assert(sbuf[j] == first_pass[j] + hit(
                        r2[i as int] as int,
                        p as int,
                        w as int,
                        j,
                    ));
                }
            }
        }
        i = i + 1;
    }
    proof {
        assert(s1@ =~= roots_after_block(fb@, min_prime, r1, len as int));
        assert(s2@ =~= roots_after_block(fb@, min_prime, r2, len as int));
    }
    sbuf
}

/// `a^(p-2) mod p`: the inverse of `a` modulo a prime `p` that does not
/// divide it, and 0 for a prime that does.
pub open spec fn inverse_power(a: int, p: int) -> int {
    pow(a, (p - 2) as nat) % p
}

/// For some prime `p` of the factor base the power `a^(p-2)` of the leading
/// coefficient vanishes modulo `p`, which for an odd prime means that it
/// divides `a`: the polynomial is degenerate and is not sieved.
pub open spec fn degenerate(a: int, fb: Seq<u64>) -> bool {
    exists|i: int| 0 <= i < fb.len() && #[trigger] inverse_power(a, fb[i] as int) == 0
}

/// The position in `[0, p)` of the root `(t - b) * ainv` of the polynomial
/// modulo `p`, counted from the left edge `-m` of the interval.
pub open spec fn root_position(t: int, b: int, ainv: int, m: int, p: int) -> int {
    (((t - b) * ainv) % p + m) % p
}

/// The positions of the roots that belong to `+tsqrt`.
pub open spec fn first_roots(poly: Polynomial, fb: Seq<u64>, tsqrt: Seq<Integer>, xmax: int) -> Seq<
    i64,
> {
    Seq::new(
        fb.len(),
        |i: int|
            root_position(
                val(tsqrt[i]),
                val(poly.b),
                inverse_power(val(poly.a), fb[i] as int),
                xmax,
                fb[i] as int,
            ) as i64,
    )
}

/// The positions of the roots that belong to `-tsqrt`.
pub open spec fn second_roots(poly: Polynomial, fb: Seq<u64>, tsqrt: Seq<Integer>, xmax: int) -> Seq<
    i64,
> {
    Seq::new(
        fb.len(),
        |i: int|
            root_position(
                -val(tsqrt[i]),
                val(poly.b),
                inverse_power(val(poly.a), fb[i] as int),
                xmax,
                fb[i] as int,
            ) as i64,
    )
}

/// The position of one root, as a machine integer.
fn root_of(t: &Integer, b: &Integer, ainv: &Integer, xmax: &Integer, p: &Integer) -> (r: i64)
    requires
        2 <= val(*p) <= MAX_PRIME,
    ensures
        r == root_position(val(*t), val(*b), val(*ainv), val(*xmax), val(*p)),
        0 <= r < val(*p),
{
    let diff = minus(t, b);
    let product = times(&diff, ainv);
    let (_, sol) = div_rem(&product, p);
    let shifted = plus(&sol, xmax);
    let (_, position) = div_rem(&shifted, p);
    proof {
        lemma_mod_bound(val(shifted), val(*p));
    }
    match to_i64(&position) {
        Some(v) => v,
        None => 0,
    }
}

/// Root setup: for each prime of the factor base the positions of the two
/// roots of the polynomial in the first block, or nothing when the polynomial
/// is degenerate.
pub fn root_positions(poly: &Polynomial, fb: &Vec<u64>, tsqrt: &Vec<Integer>, xmax: i64) -> (r:
    Option<(Vec<i64>, Vec<i64>)>)
    requires
        primes_in_range(fb@),
        tsqrt.len() == fb.len(),
    ensures
        r.is_none() <==> degenerate(val(poly.a), fb@),
        r.is_some() ==> r.unwrap().0@ == first_roots(*poly, fb@, tsqrt@, xmax as int)
            && r.unwrap().1@ == second_roots(*poly, fb@, tsqrt@, xmax as int)
            && roots_in_range(fb@, r.unwrap().0@) && roots_in_range(fb@, r.unwrap().1@),
{
    let zero = from_u64(0);
    let width = from_i64(xmax);
    let mut s1: Vec<i64> = Vec::new();
    let mut s2: Vec<i64> = Vec::new();
    let mut i: usize = 0;
    while i < fb.len()
        invariant
            i <= fb.len(),
            primes_in_range(fb@),
            tsqrt.len() == fb.len(),
            val(zero) == 0,
            val(width) == xmax,
            s1.len() == i,
            s2.len() == i,
            forall|k: int| 0 <= k < i ==> inverse_power(val(poly.a), #[trigger] fb[k] as int) != 0,
            forall|k: int|
                0 <= k < i ==> #[trigger] s1[k] == first_roots(*poly, fb@, tsqrt@, xmax as int)[k],
            forall|k: int|
                0 <= k < i ==> #[trigger] s2[k] == second_roots(*poly, fb@, tsqrt@, xmax as int)[k],
            forall|k: int| 0 <= k < i ==> 0 <= #[trigger] s1[k] < fb[k],
            forall|k: int| 0 <= k < i ==> 0 <= #[trigger] s2[k] < fb[k],
        decreases fb.len() - i,
    {
        let p = from_u64(fb[i]);
        let e = from_u64(fb[i] - 2);
        let (_, a_reduced) = div_rem(&poly.a, &p);
        proof {
            lemma_mod_bound(val(poly.a), val(p));
            lemma_pow_mod_noop(val(poly.a), (fb[i as int] - 2) as nat, val(p));
        }
        let ainv = pow_mod(&a_reduced, &e, &p);
        if equal(&ainv, &zero) {
            assert(inverse_power(val(poly.a), fb[i as int] as int) == 0);
            return None;
        }
        let t = &tsqrt[i];
        let minus_t = minus(&zero, t);
        let first = root_of(t, &poly.b, &ainv, &width, &p);
        let second = root_of(&minus_t, &poly.b, &ainv, &width, &p);
        s1.push(first);
        s2.push(second);
        i = i + 1;
    }
    proof {
        assert(s1@ =~= first_roots(*poly, fb@, tsqrt@, xmax as int));
        assert(s2@ =~= second_roots(*poly, fb@, tsqrt@, xmax as int));
    }
    Some((s1, s2))
}

/// A partial relation: a relation together with the large prime that trial
/// division left over.
pub type Partial = (u64, Relation);

/// What trial division makes of one position of the interval.
pub enum Candidate {
    /// The value factors completely over the factor base.
    Full(Relation),
    /// One factor between 1 and the square of the bound is left.
    Partial(u64, Relation),
    /// Anything else.
    Discard,
}

/// The relation that `x` gives: `(a x + b, (Q(x), A))`.
pub open spec fn triple_at(poly: Polynomial, x: int) -> Triple {
    Triple { x: poly.lhs_at(x), y: poly.value_at(x), a: val(poly.root) }
}

/// What is left of `|Q(x)|` after trial division by the factor base.
pub open spec fn cofactor_at(poly: Polynomial, fb: Seq<u64>, x: int) -> int {
    residue(abs(poly.value_at(x)), fb, fb.len() as int)
}

impl Candidate {
    /// The candidate is what `x` deserves: a full relation when the cofactor
    /// is 1, a partial one when it lies strictly between 1 and `bound^2`,
    /// nothing otherwise.
    pub open spec fn is_verdict(self, poly: Polynomial, fb: Seq<u64>, bound: int, x: int) -> bool {
        let nf = cofactor_at(poly, fb, x);
        match self {
            Candidate::Full(rel) => nf == 1 && triple(rel) == triple_at(poly, x),
            Candidate::Partial(large, rel) => 1 < nf < bound * bound && large == nf && triple(rel)
                == triple_at(poly, x),
            Candidate::Discard => nf != 1 && !(1 < nf < bound * bound),
        }
    }
}

/// The identity behind every relation: with `a = root^2` and
/// `a * c = b^2 - n`, the square of `a x + b` differs from
/// `root^2 * (a x^2 + 2 b x + c)` by exactly `n`.
pub proof fn lemma_relation_identity(a: int, b: int, c: int, root: int, n: int, x: int)
    requires
        a == root * root,
        a * c == b * b - n,
    ensures
        (a * x + b) * (a * x + b) - root * root * (a * (x * x) + 2 * b * x + c) == n,
{
    let ax = a * x;
    let xx = x * x;
    let bx = 2 * b * x;
    let y = a * xx + bx + c;
    assert((ax + b) * (ax + b) == ax * ax + 2 * (ax * b) + b * b) by (nonlinear_arith);
    assert(ax * ax == a * (a * xx)) by (nonlinear_arith)
        requires
            ax == a * x,
            xx == x * x,
    ;
    assert(2 * (ax * b) == a * bx) by (nonlinear_arith)
        requires
            ax == a * x,
            bx == 2 * b * x,
    ;
    assert(a * y == a * (a * xx) + a * bx + a * c) by (nonlinear_arith)
        requires
            y == a * xx + bx + c,
    ;
}

/// Every relation that a fitting polynomial gives satisfies the relation
/// invariant: `(a x + b)^2 = A^2 * Q(x) (mod n)`.
pub proof fn lemma_sieved_relation_holds(poly: Polynomial, n: int, x: int)
    requires
        n > 0,
        poly.fits(n),
    ensures
        triple_at(poly, x).holds(n),
{
    lemma_relation_identity(val(poly.a), val(poly.b), val(poly.c), val(poly.root), n, x);
    vstd::arithmetic::div_mod::lemma_mod_self_0(n);
}

/// Evaluates the polynomial at `x` and divides the value by the factor base.
pub fn classify(poly: &Polynomial, fb: &Vec<u64>, bound: u32, x: i64) -> (r: Candidate)
    requires
        primes_in_range(fb@),
    ensures
        r.is_verdict(*poly, fb@, bound as int, x as int),
{
    let zero = from_u64(0);
    let one = from_u64(1);
    let at = from_i64(x);
    let square = times(&at, &at);
    let quadratic = times(&poly.a, &square);
    let b_x = times(&poly.b, &at);
    let linear = plus(&b_x, &b_x);
    let upper = plus(&quadratic, &linear);
    let y = plus(&upper, &poly.c);
    let a_x = times(&poly.a, &at);
    let lhs = plus(&a_x, &poly.b);
    proof {
        assert(val(linear) == 2 * val(poly.b) * x) by (nonlinear_arith)
            requires
                val(linear) == val(poly.b) * x + val(poly.b) * x,
        ;
    }
    if equal(&y, &zero) {
        proof {
            lemma_residue_of_zero(fb@, fb.len() as int);
        }
        return Candidate::Discard;
    }
    let magnitude = if less(&y, &zero) {
        minus(&zero, &y)
    } else {
        copy(&y)
    };
    let nf = trial_divide(magnitude, fb);
    let relation = (lhs, (y, copy(&poly.root)));
    if equal(&nf, &one) {
        return Candidate::Full(relation);
    }
    assert(bound * bound <= 0xFFFF_FFFE_0000_0001) by (nonlinear_arith)
        requires
            0 <= bound <= 0xFFFF_FFFF,
    ;
    let limit: u64 = (bound as u64) * (bound as u64);
    match to_u64(&nf) {
        Some(large) => {
            if large < limit {
                Candidate::Partial(large, relation)
            } else {
                Candidate::Discard
            }
        },
        None => Candidate::Discard,
    }
}

/// What the sieve of one polynomial hands on: the full relations and the
/// partial ones, each list in the order of the positions that gave them.
pub struct Batch {
    pub smooths: Vec<Relation>,
    pub partials: Vec<Partial>,
}

/// The large prime and the numbers of each partial relation of a list.
pub open spec fn partial_views(ps: Seq<Partial>) -> Seq<(u64, Triple)> {
    ps.map_values(|p: Partial| (p.0, triple(p.1)))
}

/// The score of position `t` of the whole interval.
pub open spec fn score_at(poly: Polynomial, init: InitResult, t: int) -> int {
    score(
        init.factorbase@,
        init.tlog@,
        init.min_prime,
        first_roots(poly, init.factorbase@, init.tsqrt@, init.xmax as int),
        second_roots(poly, init.factorbase@, init.tsqrt@, init.xmax as int),
        init.factorbase.len() as int,
        t,
    )
}

/// Position `t` gives a full relation: its score is above the threshold and
/// trial division leaves 1.
pub open spec fn full_at(poly: Polynomial, init: InitResult, t: int) -> bool {
    score_at(poly, init, t) > init.thresh && cofactor_at(
        poly,
        init.factorbase@,
        t - init.xmax,
    ) == 1
}

/// Position `t` gives a partial relation: its score is above the threshold
/// and trial division leaves a number strictly between 1 and `bound^2`.
pub open spec fn partial_at(poly: Polynomial, init: InitResult, t: int) -> bool {
    score_at(poly, init, t) > init.thresh && 1 < cofactor_at(
        poly,
        init.factorbase@,
        t - init.xmax,
    ) < init.bound * init.bound
}

/// The full relations of the positions below `end`, in order.
pub open spec fn fulls_before(poly: Polynomial, init: InitResult, end: int) -> Seq<Triple>
    decreases end,
{
    if end <= 0 {
        Seq::empty()
    } else if full_at(poly, init, end - 1) {
        fulls_before(poly, init, end - 1).push(triple_at(poly, end - 1 - init.xmax))
    } else {
        fulls_before(poly, init, end - 1)
    }
}

/// The partial relations of the positions below `end`, in order.
pub open spec fn partials_before(poly: Polynomial, init: InitResult, end: int) -> Seq<
    (u64, Triple),
>
    decreases end,
{
    if end <= 0 {
        Seq::empty()
    } else if partial_at(poly, init, end - 1) {
        partials_before(poly, init, end - 1).push(
            (
                cofactor_at(poly, init.factorbase@, end - 1 - init.xmax) as u64,
                triple_at(poly, end - 1 - init.xmax),
            ),
        )
    } else {
        partials_before(poly, init, end - 1)
    }
}

/// Every full relation that the sieve of a fitting polynomial yields is
/// accounted for with the cofactor 1: it satisfies the relation invariant and
/// factors completely over the factor base.
pub proof fn lemma_fulls_accounted(poly: Polynomial, init: InitResult, n: int, end: int)
    requires
        n > 0,
        poly.fits(n),
    ensures
        forall|k: int|
            0 <= k < fulls_before(poly, init, end).len() ==> (#[trigger] fulls_before(
                poly,
                init,
                end,
            )[k]).accounted(init.factorbase@, n, 1),
    decreases end,
{
    if end > 0 {
        lemma_fulls_accounted(poly, init, n, end - 1);
        let x = end - 1 - init.xmax;
        let before = fulls_before(poly, init, end - 1);
        let after = fulls_before(poly, init, end);
        if full_at(poly, init, end - 1) {
            lemma_sieved_relation_holds(poly, n, x);
            lemma_residue_of_zero(init.factorbase@, init.factorbase.len() as int);
            lemma_smooth_relation_is_accounted(triple_at(poly, x), init.factorbase@, n);
        }
        assert forall|k: int| 0 <= k < after.len() implies (#[trigger] after[k]).accounted(
            init.factorbase@,
            n,
            1,
        ) by {
            if k < before.len() {
                assert(after[k] == before[k]);
            }
        }
    }
}

/// Every partial relation that the sieve of a fitting polynomial yields
/// waits with its large prime: it satisfies the relation invariant, and
/// trial division leaves the large prime of its right-hand value.
pub proof fn lemma_partials_wait(poly: Polynomial, init: InitResult, n: int, end: int)
    requires
        n > 0,
        poly.fits(n),
        primes_in_range(init.factorbase@),
    ensures
        forall|k: int|
            0 <= k < partials_before(poly, init, end).len() ==> (#[trigger] partials_before(
                poly,
                init,
                end,
            )[k]).1.waits_for(init.factorbase@, n, partials_before(poly, init, end)[k].0 as int),
    decreases end,
{
    if end > 0 {
        lemma_partials_wait(poly, init, n, end - 1);
        let x = end - 1 - init.xmax;
        let before = partials_before(poly, init, end - 1);
        let after = partials_before(poly, init, end);
        if partial_at(poly, init, end - 1) {
            lemma_sieved_relation_holds(poly, n, x);
            lemma_residue_of_zero(init.factorbase@, init.factorbase.len() as int);
            assert(init.bound * init.bound <= 0xFFFF_FFFE_0000_0001) by (nonlinear_arith)
                requires
                    0 <= init.bound <= 0xFFFF_FFFF,
            ;
            let y = poly.value_at(x);
            let large = cofactor_at(poly, init.factorbase@, x);
            lemma_trial_division_factorization(
                abs(y),
                init.factorbase@,
                init.factorbase.len() as int,
            );
            lemma_exact_quotient(
                large,
                power_product(
                    init.factorbase@,
                    exponents_of(abs(y), init.factorbase@),
                    init.factorbase.len() as int,
                ),
            );
            lemma_divides_signed(y, large);
        }
        assert forall|k: int| 0 <= k < after.len() implies (#[trigger] after[k]).1.waits_for(
            init.factorbase@,
            n,
            after[k].0 as int,
        ) by {
            if k < before.len() {
                assert(after[k] == before[k]);
            }
        }
    }
}

/// The roots `s` of a block that starts at position `base` are those of the
/// first block, `r`, carried along: this is asked of the primes that the
/// sieve walks.
pub open spec fn in_phase(fb: Seq<u64>, min_prime: u64, s: Seq<i64>, r: Seq<i64>, base: int) -> bool {
    &&& s.len() == fb.len()
    &&& r.len() == fb.len()
    &&& forall|i: int|
        0 <= i < fb.len() && #[trigger] fb[i] >= min_prime ==> 0 <= s[i] < fb[i] && 0 <= r[i]
            < fb[i] && (base + s[i]) % (fb[i] as int) == r[i]
}

/// A root carried along hits position `j` of its block exactly when the
/// root of the first block hits position `base + j` of the interval.
proof fn lemma_hit_shift(s: int, r: int, p: int, w: int, base: int, j: int)
    requires
        p >= 2,
        0 <= s < p,
        0 <= r < p,
        (base + s) % p == r,
    ensures
        hit(s, p, w, j) == hit(r, p, w, base + j),
{
    lemma_mod_equivalence(j, s, p);
    lemma_mod_equivalence(base + j, base + s, p);
    lemma_small_mod(s as nat, p as nat);
}

/// The scores of a block computed from roots in phase are the scores of the
/// interval.
proof fn lemma_score_shift(
    fb: Seq<u64>,
    tlog: Seq<u32>,
    min_prime: u64,
    s1: Seq<i64>,
    s2: Seq<i64>,
    r1: Seq<i64>,
    r2: Seq<i64>,
    base: int,
    k: int,
    j: int,
)
    requires
        0 <= k <= fb.len(),
        tlog.len() == fb.len(),
        primes_in_range(fb),
        in_phase(fb, min_prime, s1, r1, base),
        in_phase(fb, min_prime, s2, r2, base),
    ensures
        score(fb, tlog, min_prime, s1, s2, k, j) == score(fb, tlog, min_prime, r1, r2, k, base + j),
    decreases k,
{
    if k > 0 {
        lemma_score_shift(fb, tlog, min_prime, s1, s2, r1, r2, base, k - 1, j);
        let i = k - 1;
        if fb[i] >= min_prime {
            lemma_hit_shift(s1[i] as int, r1[i] as int, fb[i] as int, tlog[i] as int, base, j);
            lemma_hit_shift(s2[i] as int, r2[i] as int, fb[i] as int, tlog[i] as int, base, j);
        }
    }
}

/// Roots in phase stay in phase when they are carried to the next block.
proof fn lemma_phase_step(
    fb: Seq<u64>,
    min_prime: u64,
    s: Seq<i64>,
    r: Seq<i64>,
    base: int,
    len: int,
)
    requires
        primes_in_range(fb),
        in_phase(fb, min_prime, s, r, base),
    ensures
        in_phase(fb, min_prime, roots_after_block(fb, min_prime, s, len), r, base + len),
{
    let next = roots_after_block(fb, min_prime, s, len);
    assert forall|i: int| 0 <= i < fb.len() && #[trigger] fb[i] >= min_prime implies 0 <= next[i]
        < fb[i] && 0 <= r[i] < fb[i] && (base + len + next[i]) % (fb[i] as int) == r[i] by {
        let p = fb[i] as int;
        lemma_mod_bound(s[i] - len, p);
        lemma_add_mod_noop_right(base + len, s[i] - len, p);
    }
}

/// Whether a score is above the threshold.
fn above(score: u64, thresh: i64) -> (r: bool)
    ensures
        r == (score > thresh),
{
    thresh < 0 || score > thresh as u64
}

/// Tries every position of one block whose score is above the threshold, and
/// appends the relations found to the two lists.
fn scan_block(
    poly: &Polynomial,
    init: &InitResult,
    sbuf: &Vec<u64>,
    base: i64,
    smooths: &mut Vec<Relation>,
    partials: &mut Vec<Partial>,
)
    requires
        primes_in_range(init.factorbase@),
        0 <= init.xmax <= 240 * MAX_PRIMES,
        0 <= base,
        base + sbuf.len() <= 2 * init.xmax + 1,
        forall|i: int|
            0 <= i < sbuf.len() ==> #[trigger] sbuf[i] == score_at(*poly, *init, base + i),
        triples(old(smooths)@) == fulls_before(*poly, *init, base as int),
        partial_views(old(partials)@) == partials_before(*poly, *init, base as int),
    ensures
        triples(final(smooths)@) == fulls_before(*poly, *init, base + sbuf.len()),
        partial_views(final(partials)@) == partials_before(*poly, *init, base + sbuf.len()),
{
    let len: i64 = sbuf.len() as i64;
    let mut j: i64 = 0;
    while j < len
        invariant
            primes_in_range(init.factorbase@),
            0 <= init.xmax <= 240 * MAX_PRIMES,
            0 <= j <= len,
            0 <= base,
            len == sbuf.len(),
            base + len <= 2 * init.xmax + 1,
            forall|i: int|
                0 <= i < sbuf.len() ==> #[trigger] sbuf[i] == score_at(*poly, *init, base + i),
            triples(smooths@) == fulls_before(*poly, *init, base + j),
            partial_views(partials@) == partials_before(*poly, *init, base + j),
        decreases len - j,
    {
        let ghost t = base + j;
        let ghost fulls = smooths@;
        let ghost parts = partials@;
        assert(sbuf[j as int] == score_at(*poly, *init, t));
        if above(sbuf[j as usize], init.thresh) {
            let x: i64 = base + j - init.xmax;
            match classify(poly, &init.factorbase, init.bound, x) {
                Candidate::Full(rel) => {
                    smooths.push(rel);
                    proof {
                        assert(triples(smooths@) =~= triples(fulls).push(triple(rel)));
                    }
                },
                Candidate::Partial(large, rel) => {
                    partials.push((large, rel));
                    proof {
                        assert(partial_views(partials@) =~= partial_views(parts).push(
                            (large, triple(rel)),
                        ));
                    }
                },
                Candidate::Discard => {},
            }
        }
        assert(triples(smooths@) == fulls_before(*poly, *init, t + 1));
        assert(partial_views(partials@) == partials_before(*poly, *init, t + 1));
        j = j + 1;
    }
}

/// Sieves one polynomial over the whole interval `[-M, M]`.
///
/// The interval is walked block by block. Every position whose score is above
/// the threshold is tried by trial division; the relations found come out in
/// the order of their positions. A degenerate polynomial, whose leading
/// coefficient is divisible by an odd prime of the factor base, is not sieved
/// at all.
pub fn sieve_polynomial(poly: &Polynomial, init: &InitResult) -> (r: Option<Batch>)
    requires
        init.wf(),
    ensures
        r.is_none() <==> degenerate(val(poly.a), init.factorbase@),
        r.is_some() ==> triples(r.unwrap().smooths@) == fulls_before(
            *poly,
            *init,
            2 * init.xmax + 1,
        ) && partial_views(r.unwrap().partials@) == partials_before(
            *poly,
            *init,
            2 * init.xmax + 1,
        ),
{
    let roots = root_positions(poly, &init.factorbase, &init.tsqrt, init.xmax);
    if roots.is_none() {
        return None;
    }
    let (mut s1, mut s2) = roots.unwrap();
    let ghost r1 = s1@;
    let ghost r2 = s2@;
    let mut smooths: Vec<Relation> = Vec::new();
    let mut partials: Vec<Partial> = Vec::new();
    let total: i64 = 2 * init.xmax + 1;
    let mut base: i64 = 0;
    proof {
        assert forall|i: int| 0 <= i < r1.len() implies (0 + r1[i]) % (init.factorbase[i] as int)
            == r1[i] by {
            lemma_small_mod(r1[i] as nat, init.factorbase[i] as nat);
        }
        assert forall|i: int| 0 <= i < r2.len() implies (0 + r2[i]) % (init.factorbase[i] as int)
            == r2[i] by {
            lemma_small_mod(r2[i] as nat, init.factorbase[i] as nat);
        }
        assert(triples(smooths@) =~= fulls_before(*poly, *init, 0));
        assert(partial_views(partials@) =~= partials_before(*poly, *init, 0));
    }
    while base < total
        invariant
            init.wf(),
            total == 2 * init.xmax + 1,
            0 <= base <= total,
            r1 == first_roots(*poly, init.factorbase@, init.tsqrt@, init.xmax as int),
            r2 == second_roots(*poly, init.factorbase@, init.tsqrt@, init.xmax as int),
            roots_in_range(init.factorbase@, s1@),
            roots_in_range(init.factorbase@, s2@),
            in_phase(init.factorbase@, init.min_prime, s1@, r1, base as int),
            in_phase(init.factorbase@, init.min_prime, s2@, r2, base as int),
            triples(smooths@) == fulls_before(*poly, *init, base as int),
            partial_views(partials@) == partials_before(*poly, *init, base as int),
        decreases total - base,
    {
        let len: i64 = if total - base < SIEVE_SIZE + 1 {
            total - base
        } else {
            SIEVE_SIZE + 1
        };
        let ghost b1 = s1@;
        let ghost b2 = s2@;
        let sbuf = sieve_block(
            &init.factorbase,
            &init.tlog,
            init.min_prime,
            len as usize,
            &mut s1,
            &mut s2,
        );
        proof {
            lemma_phase_step(init.factorbase@, init.min_prime, b1, r1, base as int, len as int);
            lemma_phase_step(init.factorbase@, init.min_prime, b2, r2, base as int, len as int);
            assert forall|i: int| 0 <= i < sbuf.len() implies #[trigger] sbuf[i] == score_at(
                *poly,
                *init,
                base + i,
            ) by {
                lemma_score_shift(
                    init.factorbase@,
                    init.tlog@,
                    init.min_prime,
                    b1,
                    b2,
                    r1,
                    r2,
                    base as int,
                    init.factorbase.len() as int,
                    i,
                );
            }
        }
        scan_block(poly, init, &sbuf, base, &mut smooths, &mut partials);
        base = base + len;
    }
    Some(Batch { smooths, partials })
}

/// `batch` is what the sieve of the polynomial `poly` yields.
pub open spec fn is_yield_of(batch: Batch, poly: Polynomial, init: InitResult) -> bool {
    &&& triples(batch.smooths@) == fulls_before(poly, init, 2 * init.xmax + 1)
    &&& partial_views(batch.partials@) == partials_before(poly, init, 2 * init.xmax + 1)
}

/// `sieved` is what [`sieve_root`] may give for the root `root`: a batch is
/// what the sieve of a polynomial of that root yields, one that fits `n` and
/// is not degenerate; and an odd prime root with `(n|root) = 1` whose square
/// is not degenerate has a batch.
pub open spec fn sieve_outcome(sieved: Option<Batch>, n: int, init: InitResult, root: int) -> bool {
    &&& sieved.is_some() ==> exists|poly: Polynomial| #[trigger]
        poly.fits(n) && val(poly.root) == root && !degenerate(val(poly.a), init.factorbase@)
            && is_yield_of(sieved.unwrap(), poly, init)
    &&& is_prime(root) && root % 2 == 1 && legendre_symbol(n, root) == 1 && !degenerate(
        root * root,
        init.factorbase@,
    ) ==> sieved.is_some()
    &&& degenerate(root * root, init.factorbase@) ==> sieved.is_none()
}

/// Sieves the polynomial that belongs to the root `root`, if there is one and
/// it is not degenerate.
pub fn sieve_root(n: &Integer, init: &InitResult, root: &Integer) -> (r: Option<Batch>)
    requires
        init.wf(),
    ensures
        r.is_some() ==> exists|poly: Polynomial| #[trigger]
            poly.fits(val(*n)) && val(poly.root) == val(*root) && !degenerate(
                val(poly.a),
                init.factorbase@,
            ) && is_yield_of(r.unwrap(), poly, *init),
        is_prime(val(*root)) && val(*root) % 2 == 1 && legendre_symbol(val(*n), val(*root)) == 1
            && !degenerate(val(*root) * val(*root), init.factorbase@) ==> r.is_some(),
        sieve_outcome(r, val(*n), *init, val(*root)),
{
    match polynomial_for(n, root) {
        Some(poly) => {
            let batch = sieve_polynomial(&poly, init);
            proof {
                if batch.is_some() {
                    assert(poly.fits(val(*n)) && is_yield_of(batch.unwrap(), poly, *init));
                }
            }
            batch
        },
        None => None,
    }
}

} // verus!
