//! The sieve on one thread: initialisation and the main loop.

use vstd::prelude::*;
use rug::Integer;
use crate::algebra::{algebra, dependency_masks, explains, is_solution, parity_rows};
use crate::arith::{
    floor_sqrt, is_prime, is_sqrt_mod, legendre_symbol, lemma_floor_sqrt, lemma_floor_sqrt_unique,
};
use crate::arith::{bit, is_gcd};
use crate::big::{
    copy, div_rem, equal, from_u64, isqrt, legendre, less, plus, symbol, times, val,
};
use crate::extractor::{
    all_trivial, differences, lhs_product, optional_value, rhs_value, splits,
};
use crate::manager::{
    lemma_empty_is_accounted, lemma_fulls_keep_accounted, lemma_partials_keep_accounted, Holdings,
    RelationManager,
};
use crate::polynomial::{is_lift_of_some_root, next_polynomial, root_at, Polynomial};
use crate::primes::{all_prime, distinct_primes};
use crate::relation::{triples, Triple};
use crate::sieve::{
    degenerate, fulls_before, lemma_fulls_accounted, lemma_partials_wait, partial_views,
    partials_before, primes_in_range, sieve_polynomial, MAX_PRIMES,
};
use crate::squares::lemma_dependency_gives_congruent_squares;
use crate::tonelli_shanks::{tonelli_result, tonelli_shanks};

verus! {

/// Everything that the sieve derives from the number to factor before it
/// looks at the first polynomial.
///
/// The logarithms are fixed-point numbers in units of `1 / LOG_SCALE`.
pub struct InitResult {
    /// Where the search for the first polynomial root `A` starts.
    pub roota: Integer,
    /// The factor base: 2 and the odd primes `p <= bound` with `(N|p) = 1`.
    pub factorbase: Vec<u64>,
    /// For each prime of the factor base a square root of `N` modulo it.
    pub tsqrt: Vec<Integer>,
    /// Half-width `M` of the sieve interval `[-M, M]`.
    pub xmax: i64,
    /// For each prime of the factor base its decimal logarithm.
    pub tlog: Vec<u32>,
    /// The score above which a position is tried.
    pub thresh: i64,
    /// Primes below this one are left out of the log sieve.
    pub min_prime: u64,
    /// The bound `B` of the factor base.
    pub bound: u32,
}

impl InitResult {
    /// The tables run parallel to the factor base, whose primes are in the
    /// range that the sieve can handle, and the interval is `240` positions
    /// wide for each prime on either side.
    pub open spec fn wf(&self) -> bool {
        &&& 1 <= self.factorbase.len() <= MAX_PRIMES
        &&& primes_in_range(self.factorbase@)
        &&& self.tsqrt.len() == self.factorbase.len()
        &&& self.tlog.len() == self.factorbase.len()
        &&& self.xmax == 240 * self.factorbase.len()
    }

    /// The values are those that belong to the number `n`, the bound
    /// `bound`, the logarithms `tlog` of the primes and the logarithm
    /// `log_magnitude` of the magnitude.
    pub open spec fn describes(&self, n: int, bound: u32, tlog: Seq<u32>, log_magnitude: u32) -> bool {
        &&& is_factor_base(self.factorbase@, n, bound as int)
        &&& self.bound == bound
        &&& self.tlog@ == tlog
        &&& val(self.roota) == first_root(n, self.factorbase.len() as int)
        &&& self.thresh == threshold(self.factorbase@, tlog, log_magnitude)
        &&& self.min_prime == least_sieved_prime(log_magnitude)
        &&& val(self.tsqrt[0]) == 0
        &&& forall|i: int|
            1 <= i < self.factorbase.len() ==> is_sqrt_mod(
                val(#[trigger] self.tsqrt[i]),
                n,
                self.factorbase[i] as int,
            )
    }
}

/// `p` belongs to the factor base of `n` with bound `bound`: it is 2, or an
/// odd prime with `(n|p) = 1`, and it does not exceed the bound.
pub open spec fn in_factor_base(n: int, bound: int, p: int) -> bool {
    is_prime(p) && p <= bound && (p == 2 || legendre_symbol(n, p) == 1)
}

/// `fb` is the factor base of `n` with bound `bound`: the primes that belong
/// to it, all of them, in increasing order.
pub open spec fn is_factor_base(fb: Seq<u64>, n: int, bound: int) -> bool {
    &&& forall|i: int, j: int| 0 <= i < j < fb.len() ==> fb[i] < fb[j]
    &&& forall|i: int| 0 <= i < fb.len() ==> in_factor_base(n, bound, #[trigger] fb[i] as int)
    &&& forall|p: u64| in_factor_base(n, bound, p as int) ==> #[trigger] fb.contains(p)
}

/// A factor base consists of primes, none of them twice, all in the range
/// that the sieve can handle.
pub proof fn lemma_factor_base_is_prime(fb: Seq<u64>, n: int, bound: u32)
    requires
        is_factor_base(fb, n, bound as int),
    ensures
        all_prime(fb),
        distinct_primes(fb),
        primes_in_range(fb),
{
    assert forall|i: int| 0 <= i < fb.len() implies is_prime(#[trigger] fb[i] as int) && 2
        <= fb[i] <= 0xFFFF_FFFF by {
        assert(in_factor_base(n, bound as int, fb[i] as int));
    }
}

/// `primal_sieve::Sieve::new` with `Sieve::primes_from`: the primes from 2
/// upwards in increasing order, at least as far as `limit`. The sieve may
/// run a little beyond the limit.
#[verifier::external_body]
fn sieve_primes(limit: usize) -> (primes: Vec<usize>)
    requires
        limit >= 2,
    ensures
        forall|i: int, j: int| 0 <= i < j < primes.len() ==> primes[i] < primes[j],
        forall|i: int| 0 <= i < primes.len() ==> is_prime(#[trigger] primes[i] as int),
        forall|p: usize| is_prime(p as int) && p <= limit ==> #[trigger] primes@.contains(p),
{
    primal_sieve::Sieve::new(limit).primes_from(2).collect()
}

/// The factor base of `n`: 2 and every odd prime `p <= bound` with
/// `(n|p) = 1`, in increasing order.
pub fn factor_base(n: &Integer, bound: u32) -> (fb: Vec<u64>)
    ensures
        is_factor_base(fb@, val(*n), bound as int),
{
    let mut fb: Vec<u64> = Vec::new();
    if bound < 2 {
        return fb;
    }
    let primes = sieve_primes(bound as usize);
    let mut i: usize = 0;
    while i < primes.len() && primes[i] <= bound as usize
        invariant
            i <= primes.len(),
            bound >= 2,
            forall|a: int, b: int| 0 <= a < b < primes.len() ==> primes[a] < primes[b],
            forall|a: int| 0 <= a < primes.len() ==> is_prime(#[trigger] primes[a] as int),
            forall|a: int| 0 <= a < i ==> #[trigger] primes[a] <= bound,
            forall|a: int, b: int| 0 <= a < b < fb.len() ==> fb[a] < fb[b],
            forall|a: int|
                0 <= a < fb.len() ==> in_factor_base(val(*n), bound as int, #[trigger] fb[a] as int),
            forall|a: int| 0 <= a < fb.len() && i < primes.len() ==> #[trigger] fb[a] < primes[i as int],
            forall|a: int|
                0 <= a < i && in_factor_base(val(*n), bound as int, #[trigger] primes[a] as int)
                    ==> fb@.contains(primes[a] as u64),
        decreases primes.len() - i,
    {
        let p = primes[i] as u64;
        let ghost before = fb@;
        let mut keep = p == 2;
        if !keep {
            let big = from_u64(p);
            proof {
                // a prime other than 2 is odd
                if p % 2 == 0 {
                    assert(p as int % 2 == 0);
                }
            }
            keep = legendre(n, &big) == 1;
        }
        if keep {
            fb.push(p);
            proof {
                assert(fb@.last() == p);
                assert forall|a: int|
                    0 <= a < i + 1 && in_factor_base(
                        val(*n),
                        bound as int,
                        #[trigger] primes[a] as int,
                    ) implies fb@.contains(primes[a] as u64) by {
                    if a < i {
                        let k = choose|k: int| 0 <= k < before.len() && before[k] == primes[a] as u64;
                        assert(fb@[k] == primes[a] as u64);
                    } else {
                        assert(fb@[fb.len() - 1] == p);
                    }
                }
            }
        }
        i = i + 1;
    }
    proof {
        assert forall|p: u64| in_factor_base(val(*n), bound as int, p as int) implies #[trigger] fb@.contains(
            p,
        ) by {
            assert(primes@.contains(p as usize));
            let a = choose|a: int| 0 <= a < primes.len() && primes[a] == p as usize;
            if a >= i {
                // the walk stopped at a prime above the bound
                assert(primes[i as int] > bound);
                assert(i < a ==> primes[i as int] < primes[a]);
            }
        }
    }
    fb
}

/// The unit of the fixed-point logarithms: a logarithm `l` is held as
/// `l * LOG_SCALE`, rounded.
pub const LOG_SCALE: u64 = 65536;

/// The square root of a non-negative number, rounded down.
fn square_root(a: &Integer) -> (r: Integer)
    requires
        val(*a) >= 0,
    ensures
        val(r) == floor_sqrt(val(*a)),
{
    let r = isqrt(a);
    proof {
        lemma_floor_sqrt(val(*a));
        lemma_floor_sqrt_unique(val(r), floor_sqrt(val(*a)), val(*a));
    }
    r
}

/// Half-width of the sieve interval for a factor base of `k` primes.
pub open spec fn half_width(k: int) -> int {
    240 * k
}

/// The size of the values of a sieving polynomial at the edge of the
/// interval: `isqrt(2n) * M / 2`. Its logarithm sets the threshold.
pub open spec fn magnitude(n: int, k: int) -> int {
    (floor_sqrt(2 * n) * half_width(k)) / 2
}

/// The size of the values that the sieve looks at, for a factor base of
/// `primes` primes: `isqrt(2n) * M / 2` with `M = 240 * primes`.
pub fn sieve_magnitude(n: &Integer, primes: usize) -> (r: Integer)
    requires
        val(*n) >= 0,
        primes <= MAX_PRIMES,
    ensures
        val(r) == magnitude(val(*n), primes as int),
{
    let two = from_u64(2);
    let doubled = times(&two, n);
    let root = square_root(&doubled);
    let width = from_u64(240 * (primes as u64));
    let product = times(&root, &width);
    let (half, _) = div_rem(&product, &two);
    half
}

/// Where the search for polynomial roots starts: the odd number at or just
/// above `isqrt(isqrt(2n) / M)`, and 3 at least.
pub open spec fn first_root(n: int, k: int) -> int {
    let r = floor_sqrt(floor_sqrt(2 * n) / half_width(k));
    let odd = if r % 2 == 0 {
        r + 1
    } else {
        r
    };
    if odd < 3 {
        3
    } else {
        odd
    }
}

/// The cursor from which the polynomial generator starts.
fn initial_cursor(n: &Integer, primes: usize) -> (r: Integer)
    requires
        val(*n) >= 0,
        1 <= primes <= MAX_PRIMES,
    ensures
        val(r) == first_root(val(*n), primes as int),
{
    let one = from_u64(1);
    let two = from_u64(2);
    let three = from_u64(3);
    let zero = from_u64(0);
    let doubled = times(&two, n);
    let root = square_root(&doubled);
    let width = from_u64(240 * (primes as u64));
    proof {
        lemma_floor_sqrt(val(doubled));
    }
    let (ratio, _) = div_rem(&root, &width);
    proof {
        vstd::arithmetic::div_mod::lemma_div_pos_is_pos(val(root), val(width));
    }
    let start = square_root(&ratio);
    let (_, parity) = div_rem(&start, &two);
    let odd = if equal(&parity, &zero) {
        plus(&start, &one)
    } else {
        start
    };
    if less(&odd, &three) {
        three
    } else {
        odd
    }
}

/// The threshold before the small primes are accounted for:
/// `0.735 * log10(magnitude)`.
pub open spec fn raw_threshold(log_magnitude: u32) -> int {
    log_magnitude * 735 / 1000
}

/// The smallest prime that the log sieve walks: three times the raw
/// threshold, as a whole number.
pub open spec fn least_sieved_prime(log_magnitude: u32) -> int {
    3 * raw_threshold(log_magnitude) / 65536
}

/// The sum of the logarithms of those of the first `k` primes that are below
/// `min_prime`.
pub open spec fn small_logs(fb: Seq<u64>, tlog: Seq<u32>, min_prime: int, k: int) -> int
    decreases k,
{
    if k <= 0 {
        0
    } else if fb[k - 1] < min_prime {
        small_logs(fb, tlog, min_prime, k - 1) + tlog[k - 1]
    } else {
        small_logs(fb, tlog, min_prime, k - 1)
    }
}

/// The threshold: the raw threshold less a quarter of the logarithms of the
/// primes that the log sieve does not walk.
pub open spec fn threshold(fb: Seq<u64>, tlog: Seq<u32>, log_magnitude: u32) -> int {
    raw_threshold(log_magnitude) - small_logs(
        fb,
        tlog,
        least_sieved_prime(log_magnitude),
        fb.len() as int,
    ) / 4
}

/// The threshold and the smallest sieved prime, from the logarithms of the
/// primes and of the magnitude.
pub fn thresholds(fb: &Vec<u64>, tlog: &Vec<u32>, log_magnitude: u32) -> (r: (i64, u64))
    requires
        fb.len() <= MAX_PRIMES,
        tlog.len() == fb.len(),
    ensures
        r.0 == threshold(fb@, tlog@, log_magnitude),
        r.1 == least_sieved_prime(log_magnitude),
{
    let raw: u64 = (log_magnitude as u64) * 735 / 1000;
    let min_prime: u64 = 3 * raw / LOG_SCALE;
    let mut sum: u64 = 0;
    let mut i: usize = 0;
    while i < fb.len()
        invariant
            i <= fb.len(),
            fb.len() <= MAX_PRIMES,
            tlog.len() == fb.len(),
            sum == small_logs(fb@, tlog@, min_prime as int, i as int),
            sum <= i * 0xFFFF_FFFF,
        decreases fb.len() - i,
    {
        if fb[i] < min_prime {
            sum = sum + tlog[i] as u64;
        }
        i = i + 1;
    }
    let fudge: u64 = sum / 4;
    ((raw as i64) - (fudge as i64), min_prime)
}

/// A square root of `n` modulo each prime of the factor base, and 0 for the
/// first prime.
pub fn square_roots(n: &Integer, fb: &Vec<u64>) -> (tsqrt: Vec<Integer>)
    requires
        primes_in_range(fb@),
    ensures
        tsqrt.len() == fb.len(),
        fb.len() > 0 ==> val(tsqrt[0]) == 0,
        forall|i: int|
            1 <= i < fb.len() ==> tonelli_result(val(*n), fb[i] as int, val(#[trigger] tsqrt[i])),
        forall|i: int|
            1 <= i < fb.len() && is_prime(fb[i] as int) && fb[i] % 2 == 1 && legendre_symbol(
                val(*n),
                fb[i] as int,
            ) == 1 ==> is_sqrt_mod(val(#[trigger] tsqrt[i]), val(*n), fb[i] as int),
{
    let mut tsqrt: Vec<Integer> = Vec::new();
    let mut i: usize = 0;
    while i < fb.len()
        invariant
            i <= fb.len(),
            primes_in_range(fb@),
            tsqrt.len() == i,
            i > 0 ==> val(tsqrt[0]) == 0,
            forall|k: int|
                1 <= k < i ==> tonelli_result(val(*n), fb[k] as int, val(#[trigger] tsqrt[k])),
            forall|k: int|
                1 <= k < i && is_prime(fb[k] as int) && fb[k] % 2 == 1 && legendre_symbol(
                    val(*n),
                    fb[k] as int,
                ) == 1 ==> is_sqrt_mod(val(#[trigger] tsqrt[k]), val(*n), fb[k] as int),
        decreases fb.len() - i,
    {
        let root = if i == 0 {
            from_u64(0)
        } else {
            let p = from_u64(fb[i]);
            tonelli_shanks(n, &p)
        };
        tsqrt.push(root);
        i = i + 1;
    }
    tsqrt
}

/// No factor base of `n` with bound `bound` goes with `count` logarithms:
/// it is empty, or too long for the sieve, or of another length.
pub open spec fn no_usable_factor_base(n: int, bound: u32, count: nat) -> bool {
    exists|fb: Seq<u64>| #[trigger]
        is_factor_base(fb, n, bound as int) && (fb.len() == 0 || fb.len() > MAX_PRIMES || fb.len()
            != count)
}

/// Prepares the sieve for the number `n`.
///
/// `bound` is the bound of the factor base. `tlog` holds the decimal
/// logarithm of each prime of [`factor_base`]`(n, bound)` and `log_magnitude`
/// that of [`sieve_magnitude`]`(n, k)` for the `k` primes of that factor
/// base, all in units of `1 / LOG_SCALE`.
///
/// There is no result when `n` is below 4 or even, or when the factor base is
/// empty, has more than `MAX_PRIMES` primes, or does not have one prime for
/// each logarithm given.
pub fn initialize_qs(n: &Integer, bound: u32, tlog: Vec<u32>, log_magnitude: u32) -> (r: Option<
    InitResult,
>)
    ensures
        match r {
            Some(init) => val(*n) > 3 && val(*n) % 2 == 1 && init.wf() && init.describes(
                val(*n),
                bound,
                tlog@,
                log_magnitude,
            ),
            None => val(*n) <= 3 || val(*n) % 2 == 0 || no_usable_factor_base(
                val(*n),
                bound,
                tlog.len() as nat,
            ),
        },
{
    let zero = from_u64(0);
    let two = from_u64(2);
    let four = from_u64(4);
    if less(n, &four) {
        return None;
    }
    let (_, parity) = div_rem(n, &two);
    if equal(&parity, &zero) {
        return None;
    }
    let factorbase = factor_base(n, bound);
    let k = factorbase.len();
    if k == 0 || k > MAX_PRIMES || k != tlog.len() {
        return None;
    }
    proof {
        assert forall|i: int| 0 <= i < k implies 2 <= #[trigger] factorbase[i] <= 0xFFFF_FFFF by {
            assert(in_factor_base(val(*n), bound as int, factorbase[i] as int));
        }
    }
    let tsqrt = square_roots(n, &factorbase);
    let (thresh, min_prime) = thresholds(&factorbase, &tlog, log_magnitude);
    let roota = initial_cursor(n, k);
    proof {
        assert forall|i: int| 1 <= i < k implies is_sqrt_mod(
            val(#[trigger] tsqrt[i]),
            val(*n),
            factorbase[i] as int,
        ) by {
            let p = factorbase[i] as int;
            assert(in_factor_base(val(*n), bound as int, p));
            assert(in_factor_base(val(*n), bound as int, factorbase[0] as int));
            assert(factorbase[0] < factorbase[i]);
            assert(p > 2);
            if p % 2 == 0 {
                assert(p % 2 == 0);
            }
        }
    }
    Some(
        InitResult {
            roota,
            factorbase,
            tsqrt,
            xmax: 240 * (k as i64),
            tlog,
            thresh,
            min_prime,
            bound,
        },
    )
}

/// The divisor `g` of `n` comes out of relations that are all accounted
/// for: it is what the solver finds in them.
pub open spec fn found_in_accounted_relations(g: int, n: int, fb: Seq<u64>) -> bool {
    exists|rels: Seq<Triple>, masks: Seq<int>| #[trigger]
        explains(masks, rels, fb, n, Some(g)) && forall|i: int|
            0 <= i < rels.len() ==> (#[trigger] rels[i]).is_accounted(fb, n)
}

/// `g` is the greatest common divisor of `n` with the difference of two
/// numbers `x` and `r` whose squares are congruent modulo `n`.
pub open spec fn splits_congruent_squares(g: int, n: int) -> bool {
    exists|x: int, r: int| #[trigger] is_square_congruence(x, r, n) && is_gcd(g, r - x, n)
}

/// `x^2 = r^2 (mod n)`.
pub open spec fn is_square_congruence(x: int, r: int, n: int) -> bool {
    (x * x - r * r) % n == 0
}

/// A divisor that the solver finds in relations that are all accounted for
/// is the greatest common divisor of `n` with the difference of two numbers
/// whose squares are congruent modulo `n`.
pub proof fn lemma_found_divisor_splits_congruent_squares(g: int, n: int, fb: Seq<u64>)
    requires
        n > 0,
        primes_in_range(fb),
        found_in_accounted_relations(g, n, fb),
    ensures
        splits_congruent_squares(g, n),
{
    let (rels, masks) = choose|rels: Seq<Triple>, masks: Seq<int>| #[trigger]
        explains(masks, rels, fb, n, Some(g)) && forall|i: int|
            0 <= i < rels.len() ==> (#[trigger] rels[i]).is_accounted(fb, n);
    let diffs = differences(rels, fb, masks);
    let k = choose|k: int|
        0 <= k < diffs.len() && splits(g, diffs[k], n) && #[trigger] all_trivial(diffs, k, n);
    let mask = masks[k];
    let cofactors = Seq::new(
        rels.len(),
        |i: int| choose|c: int| #[trigger] rels[i].accounted(fb, n, c),
    );
    assert forall|j: int|
        0 <= j < rels.len() && #[trigger] bit(mask, j as nat) implies rels[j].accounted(
        fb,
        n,
        cofactors[j],
    ) by {
        assert(rels[j].is_accounted(fb, n));
    }
    lemma_dependency_gives_congruent_squares(rels, fb, mask, n, cofactors);
    let x = lhs_product(rels, mask, rels.len() as int);
    let r = rhs_value(rels, fb, mask);
    assert(diffs[k] == r - x);
    assert(is_square_congruence(x, r, n));
}

/// The holdings after everything that the sieve of the polynomial `poly`
/// yields has come in: first the full relations, then the partial ones.
pub open spec fn absorbed(before: Holdings, poly: Polynomial, init: InitResult) -> Holdings {
    let fulls = fulls_before(poly, init, 2 * init.xmax + 1);
    let parts = partials_before(poly, init, 2 * init.xmax + 1);
    before.with_fulls(fulls, fulls.len() as int).with_partials(parts, parts.len() as int)
}

/// The step from `before` to `after` takes in what a polynomial of the root
/// `root` yields: the polynomial fits `n` and is not degenerate.
pub open spec fn is_yield_step(
    before: Holdings,
    after: Holdings,
    poly: Polynomial,
    n: int,
    init: InitResult,
    root: int,
) -> bool {
    &&& poly.fits(n)
    &&& val(poly.root) == root
    &&& !degenerate(val(poly.a), init.factorbase@)
    &&& after == absorbed(before, poly, init)
}

/// An accepted root may go without a polynomial only when it is no odd
/// prime: then the root routine may find no square root that can be lifted.
pub open spec fn is_unlifted(n: int, root: int) -> bool {
    is_lift_of_some_root(false, n, root) && !(is_prime(root) && root % 2 == 1)
}

/// One step of the search, at the root `root`. A root that is not accepted
/// leaves the holdings as they are, and so does an accepted root without a
/// polynomial or with a degenerate one. Any other root has a polynomial, and
/// what its sieve yields comes in.
pub open spec fn is_step(
    before: Holdings,
    after: Holdings,
    n: int,
    init: InitResult,
    root: int,
) -> bool {
    if symbol(n, root) != 1 {
        after == before
    } else {
        ||| after == before && (is_unlifted(n, root) || degenerate(
            root * root,
            init.factorbase@,
        ))
        ||| exists|poly: Polynomial| #[trigger] is_yield_step(before, after, poly, n, init, root)
    }
}

/// `steps` are the holdings of a search from its start: nothing at first,
/// and then one step for each root that the cursor comes to.
pub open spec fn is_run(steps: Seq<Holdings>, n: int, init: InitResult) -> bool {
    &&& steps.len() >= 1
    &&& steps[0].relations == Seq::<Triple>::empty()
    &&& steps[0].partials == Map::<u64, Triple>::empty()
    &&& forall|k: int|
        1 <= k < steps.len() ==> is_step(
            steps[k - 1],
            #[trigger] steps[k],
            n,
            init,
            root_at(val(init.roota), k as nat),
        )
}

/// The solver finds no divisor in the holdings: there are not more relations
/// than primes in the factor base, or more than the solver takes, or every
/// dependency that the solver tries yields a trivial divisor.
pub open spec fn unsolved(h: Holdings, fb: Seq<u64>, n: int) -> bool {
    ||| h.relations.len() <= fb.len()
    ||| h.relations.len() > 0xFFFF_FFFF
    ||| is_solution(h.relations, fb, n, None)
}

/// The solver finds the divisor `g` in the holdings: there are more
/// relations than primes in the factor base, and `g` is what the first
/// dependency with a proper divisor yields.
pub open spec fn solved(h: Holdings, fb: Seq<u64>, n: int, g: int) -> bool {
    &&& h.relations.len() > fb.len()
    &&& is_solution(h.relations, fb, n, Some(g))
}

/// `steps` are the holdings of a search in which the solver found nothing
/// before the last step.
pub open spec fn is_search(steps: Seq<Holdings>, n: int, init: InitResult) -> bool {
    &&& is_run(steps, n, init)
    &&& forall|k: int|
        0 <= k < steps.len() - 1 ==> unsolved(#[trigger] steps[k], init.factorbase@, n)
}

/// The search `steps` ends with the result `r` within `max` steps: with a
/// divisor as soon as the solver finds one, and without one only when the
/// solver has found nothing after any of the `max` steps.
pub open spec fn ends_search(
    steps: Seq<Holdings>,
    n: int,
    init: InitResult,
    max: int,
    r: Option<int>,
) -> bool {
    &&& is_search(steps, n, init)
    &&& steps.len() <= max + 1
    &&& match r {
        Some(g) => steps.len() >= 2 && solved(steps.last(), init.factorbase@, n, g),
        None => steps.len() == max + 1 && unsolved(steps.last(), init.factorbase@, n),
    }
}

/// A search that has found nothing so far stays a search when one more step
/// is made.
proof fn lemma_search_goes_on(
    steps: Seq<Holdings>,
    next: Holdings,
    n: int,
    init: InitResult,
)
    requires
        is_search(steps, n, init),
        unsolved(steps.last(), init.factorbase@, n),
        is_step(steps.last(), next, n, init, root_at(val(init.roota), steps.len())),
    ensures
        is_search(steps.push(next), n, init),
{
    let longer = steps.push(next);
    assert forall|k: int| 1 <= k < longer.len() implies is_step(
        longer[k - 1],
        #[trigger] longer[k],
        n,
        init,
        root_at(val(init.roota), k as nat),
    ) by {
        if k < steps.len() {
            assert(longer[k] == steps[k] && longer[k - 1] == steps[k - 1]);
        } else {
            assert(longer[k] == next && longer[k - 1] == steps.last());
        }
    }
    assert forall|k: int| 0 <= k < longer.len() - 1 implies unsolved(
        #[trigger] longer[k],
        init.factorbase@,
        n,
    ) by {
        assert(longer[k] == steps[k]);
        if k == steps.len() - 1 {
            assert(steps[k] == steps.last());
        }
    }
}

/// Factors the odd composite `n` with the sieve that `init` describes, on one
/// thread. A prime never comes this far: the caller turns it away, see
/// [`crate::validate`] and [`crate::factor`].
///
/// Polynomials are taken from the generator one after the other, starting
/// above `init.roota`; each is sieved and what it yields goes to the relation
/// manager. As soon as there are more relations than primes in the factor
/// base, and again after each further polynomial, the solver looks for a
/// proper divisor. The search ends with the first divisor found, or without
/// one after `max_polynomials` steps of the generator, and then the solver
/// has found nothing after any of them.
///
/// A divisor returned lies strictly between 1 and `n` and divides `n`. With
/// a factor base of primes it is the greatest common divisor that a
/// dependency among the relations collected yields, and every one of those
/// relations is accounted for; so it is the greatest common divisor of `n`
/// with the difference of two numbers whose squares are congruent modulo
/// `n`.
pub fn mpqs(n: &Integer, init: &InitResult, max_polynomials: u64) -> (r: Option<Integer>)
    requires
        init.wf(),
        val(*n) > 1,
        val(*n) % 2 == 1,
        !is_prime(val(*n)),
    ensures
        exists|steps: Seq<Holdings>| #[trigger]
            ends_search(steps, val(*n), *init, max_polynomials as int, optional_value(r)),
        r.is_some() ==> 1 < val(r.unwrap()) < val(*n) && val(*n) % val(r.unwrap()) == 0,
        r.is_some() && all_prime(init.factorbase@) ==> found_in_accounted_relations(
            val(r.unwrap()),
            val(*n),
            init.factorbase@,
        ) && splits_congruent_squares(val(r.unwrap()), val(*n)),
        max_polynomials == 0 ==> r.is_none(),
{
    let mut manager = RelationManager::new();
    let mut cursor = copy(&init.roota);
    let mut tried: u64 = 0;
    let ghost mut steps: Seq<Holdings> = seq![manager.holdings()];
    proof {
        lemma_empty_is_accounted(manager.holdings(), init.factorbase@, val(*n));
        assert(is_search(steps, val(*n), *init));
    }
    while tried < max_polynomials
        invariant
            init.wf(),
            val(*n) > 1,
            tried <= max_polynomials,
            all_prime(init.factorbase@) ==> manager.holdings().accounted(
                init.factorbase@,
                val(*n),
            ),
            steps.len() == tried + 1,
            is_search(steps, val(*n), *init),
            steps.last() == manager.holdings(),
            unsolved(steps.last(), init.factorbase@, val(*n)),
            val(cursor) == root_at(val(init.roota), tried as nat),
        decreases max_polynomials - tried,
    {
        tried = tried + 1;
        let ghost before = manager.holdings();
        let (next, candidate) = next_polynomial(n, &cursor);
        cursor = next;
        let ghost root = val(cursor);
        assert(root == root_at(val(init.roota), tried as nat));
        let mut found: Option<Integer> = None;
        if let Some(poly) = candidate {
            if let Some(batch) = sieve_polynomial(&poly, init) {
                proof {
                    if all_prime(init.factorbase@) {
                        let end = 2 * init.xmax + 1;
                        let fulls = triples(batch.smooths@);
                        let parts = partial_views(batch.partials@);
                        lemma_fulls_accounted(poly, *init, val(*n), end);
                        lemma_partials_wait(poly, *init, val(*n), end);
                        lemma_fulls_keep_accounted(
                            manager.holdings(),
                            fulls,
                            fulls.len() as int,
                            init.factorbase@,
                            val(*n),
                        );
                        lemma_partials_keep_accounted(
                            manager.holdings().with_fulls(fulls, fulls.len() as int),
                            parts,
                            parts.len() as int,
                            init.factorbase@,
                            val(*n),
                        );
                    }
                }
                manager.absorb(&batch);
                proof {
                    assert(triples(batch.smooths@).len() == batch.smooths.len());
                    assert(partial_views(batch.partials@).len() == batch.partials.len());
                    assert(is_yield_step(
                        before,
                        manager.holdings(),
                        poly,
                        val(*n),
                        *init,
                        root,
                    ));
                }
                if manager.is_complete(init.factorbase.len()) && manager.count() <= 0xFFFF_FFFF {
                    found =
                    algebra(init.factorbase.as_slice(), manager.relations.as_slice(), n);
                    proof {
                        let rels = triples(manager.relations@);
                        let masks = dependency_masks(
                            parity_rows(rels, init.factorbase@),
                            init.factorbase@.len() + 1,
                        );
                        assert(rels == manager.holdings().relations);
                        assert(is_solution(rels, init.factorbase@, val(*n), optional_value(found)));
                        if found.is_some() {
                            assert(explains(
                                masks,
                                rels,
                                init.factorbase@,
                                val(*n),
                                Some(val(found.unwrap())),
                            ));
                            if all_prime(init.factorbase@) {
                                lemma_found_divisor_splits_congruent_squares(
                                    val(found.unwrap()),
                                    val(*n),
                                    init.factorbase@,
                                );
                            }
                        }
                    }
                }
            } else {
                assert(val(poly.a) == root * root);
            }
        }
        proof {
            assert(is_step(before, manager.holdings(), val(*n), *init, root));
            lemma_search_goes_on(steps, manager.holdings(), val(*n), *init);
            steps = steps.push(manager.holdings());
        }
        if found.is_some() {
            assert(ends_search(
                steps,
                val(*n),
                *init,
                max_polynomials as int,
                optional_value(found),
            ));
            return found;
        }
    }
    assert(ends_search(steps, val(*n), *init, max_polynomials as int, None));
    None
}

} // verus!
