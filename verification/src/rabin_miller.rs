//! The Miller-Rabin primality test with fixed witnesses.

use vstd::prelude::*;
use vstd::arithmetic::div_mod::{lemma_mod_bound, lemma_mul_mod_noop};
use vstd::arithmetic::power2::{lemma_pow2_pos, lemma_pow2_unfold, pow2};
use vstd::arithmetic::power::{lemma_pow1, lemma_pow_adds, pow};
use rug::Integer;
use crate::arith::is_prime;
use crate::big::{div_rem, equal, from_u64, less, minus, plus, pow_mod, to_u128, val};
use crate::euler::lemma_square_is_one;
use crate::fermat::lemma_fermat;
use crate::smooth::{
    lemma_strip_factorization, lemma_strip_positive, multiplicity, strip, strip_counting,
};

verus! {

/// The odd part `d` of `n - 1 = d * 2^s`.
pub open spec fn odd_part(n: int) -> int {
    strip(n - 1, 2)
}

/// The exponent `s` of `n - 1 = d * 2^s`.
pub open spec fn two_part(n: int) -> nat {
    multiplicity(n - 1, 2)
}

/// `a^(d * 2^r) mod n`, the `r`-th term of the Miller-Rabin sequence of `a`.
pub open spec fn term(a: int, n: int, r: nat) -> int {
    pow(a, (odd_part(n) * pow2(r)) as nat) % n
}

/// `a` shows that `n` is composite: the sequence of `a` does not start with
/// 1, and none of its first `s` terms is `n - 1`.
pub open spec fn is_witness(a: int, n: int) -> bool {
    term(a, n, 0) != 1 && forall|r: nat| r < two_part(n) ==> #[trigger] term(a, n, r) != n - 1
}

/// The first primes, from which the witnesses are taken.
pub open spec fn first_primes() -> Seq<u64> {
    seq![
        2u64, 3, 5, 7, 11, 13, 17, 19, 23, 29, 31, 37, 41, 43, 47, 53, 59, 61, 67, 71, 73, 79, 83,
        89, 97, 101, 103, 107, 109, 113, 127, 131, 137, 139, 149, 151, 157, 163, 167,
    ]
}

/// How many of the first primes are tried for `n`. Each count is enough to
/// decide every `n` below the next limit; beyond the last limit the test with
/// all 39 primes is only probabilistic.
pub open spec fn witness_count(n: int) -> nat {
    if n < 1_373_653 {
        2
    } else if n < 25_326_001 {
        3
    } else if n < 3_215_031_751 {
        4
    } else if n < 2_152_302_898_747 {
        5
    } else if n < 3_474_749_660_383 {
        6
    } else if n < 341_550_071_728_321 {
        7
    } else if n < 3_825_123_056_546_413_051 {
        9
    } else if n < 318_665_857_834_031_151_167_461 {
        12
    } else if n < 3_317_044_064_679_887_385_961_981 {
        13
    } else {
        39
    }
}

/// The witnesses that are tried for `n`.
pub open spec fn witnesses(n: int) -> Seq<u64> {
    first_primes().take(witness_count(n) as int)
}

/// None of the first `k` witnesses of `n` that are below `n - 1` shows `n`
/// to be composite.
pub open spec fn passes(n: int, k: int) -> bool {
    forall|i: int|
        0 <= i < k && witnesses(n)[i] + 1 < n ==> !is_witness(#[trigger] witnesses(n)[i] as int, n)
}

/// What [`is_rabin_miller_prime`] answers for `n`.
pub open spec fn rabin_miller(n: int) -> bool {
    n == 2 || n == 3 || (n > 1 && n % 2 == 1 && passes(n, witnesses(n).len() as int))
}

/// Squaring a term of the sequence gives the next term.
proof fn lemma_next_term(a: int, n: int, r: nat)
    requires
        n > 1,
        odd_part(n) > 0,
    ensures
        (term(a, n, r) * term(a, n, r)) % n == term(a, n, r + 1),
{
    let d = odd_part(n);
    lemma_pow2_pos(r);
    lemma_pow2_unfold(r + 1);
    let e = d * pow2(r);
    assert(e >= 0) by (nonlinear_arith)
        requires
            e == d * pow2(r),
            d > 0,
            pow2(r) > 0,
    ;
    assert(d * pow2(r + 1) == e + e) by (nonlinear_arith)
        requires
            e == d * pow2(r),
            pow2(r + 1) == 2 * pow2(r),
    ;
    lemma_pow_adds(a, e as nat, e as nat);
    lemma_mul_mod_noop(pow(a, e as nat), pow(a, e as nat), n);
}

/// `n - 1` is its odd part times `2^s`.
proof fn lemma_decomposition(n: int)
    requires
        n > 1,
    ensures
        odd_part(n) > 0,
        n - 1 == odd_part(n) * pow2(two_part(n)),
{
    lemma_strip_positive(n - 1, 2);
    lemma_strip_factorization(n - 1, 2);
    vstd::arithmetic::power2::lemma_pow2(two_part(n));
}

/// With a prime `n`, the sequence of a witness would never reach 1.
proof fn lemma_terms_stay_off_one(a: int, n: int, r: nat)
    requires
        is_prime(n),
        n > 2,
        is_witness(a, n),
        r <= two_part(n),
    ensures
        term(a, n, r) != 1,
    decreases r,
{
    if r > 0 {
        let before = (r - 1) as nat;
        lemma_terms_stay_off_one(a, n, before);
        lemma_decomposition(n);
        lemma_next_term(a, n, before);
        let x = term(a, n, before);
        assert(x != n - 1);
        lemma_mod_bound(pow(a, (odd_part(n) * pow2(before)) as nat), n);
        if term(a, n, r) == 1 {
            lemma_square_is_one(x, n);
        }
    }
}

/// No number that a prime does not divide shows the prime to be composite.
pub proof fn lemma_prime_has_no_witness(a: int, n: int)
    requires
        is_prime(n),
        n > 2,
        a % n != 0,
    ensures
        !is_witness(a, n),
{
    if is_witness(a, n) {
        lemma_terms_stay_off_one(a, n, two_part(n));
        lemma_decomposition(n);
        lemma_fermat(a, n);
    }
}

/// Each of the first primes is 2 at least.
proof fn lemma_first_primes_are_positive(i: int)
    requires
        0 <= i < first_primes().len(),
    ensures
        first_primes()[i] >= 2,
        first_primes().len() == 39,
{
}

/// A prime passes the Miller-Rabin test: the test never takes a prime for a
/// composite number.
pub proof fn lemma_prime_passes(n: int)
    requires
        is_prime(n),
    ensures
        rabin_miller(n),
{
    if n > 3 {
        assert(n % 2 != 0);
        let tried = witnesses(n);
        assert forall|i: int|
            0 <= i < tried.len() && tried[i] + 1 < n implies !is_witness(
            #[trigger] tried[i] as int,
            n,
        ) by {
            lemma_first_primes_are_positive(i);
            assert(tried[i] == first_primes()[i]);
            vstd::arithmetic::div_mod::lemma_small_mod(tried[i] as nat, n as nat);
            lemma_prime_has_no_witness(tried[i] as int, n);
        }
    }
}

/// The witnesses to try for `n`.
fn primes_to_test(n: &Integer) -> (r: Vec<u64>)
    ensures
        r@ == witnesses(val(*n)),
{
    let all: Vec<u64> = vec![
        2u64, 3, 5, 7, 11, 13, 17, 19, 23, 29, 31, 37, 41, 43, 47, 53, 59, 61, 67, 71, 73, 79, 83,
        89, 97, 101, 103, 107, 109, 113, 127, 131, 137, 139, 149, 151, 157, 163, 167,
    ];
    let count: usize = match to_u128(n) {
        Some(v) => {
            if v < 1_373_653 {
                2
            } else if v < 25_326_001 {
                3
            } else if v < 3_215_031_751 {
                4
            } else if v < 2_152_302_898_747 {
                5
            } else if v < 3_474_749_660_383 {
                6
            } else if v < 341_550_071_728_321 {
                7
            } else if v < 3_825_123_056_546_413_051 {
                9
            } else if v < 318_665_857_834_031_151_167_461 {
                12
            } else if v < 3_317_044_064_679_887_385_961_981 {
                13
            } else {
                39
            }
        },
        None => {
            if less(n, &from_u64(0)) {
                2
            } else {
                39
            }
        },
    };
    let mut r: Vec<u64> = Vec::new();
    let mut i: usize = 0;
    assert(all@ =~= first_primes());
    while i < count
        invariant
            i <= count <= 39,
            all@ == first_primes(),
            r@ == first_primes().take(i as int),
        decreases count - i,
    {
        r.push(all[i]);
        proof {
            assert(r@ =~= first_primes().take(i + 1));
        }
        i = i + 1;
    }
    r
}

/// Whether `a` shows that the odd number `n` is composite, given the
/// decomposition `n - 1 = d * 2^s`.
fn try_composite(a: &Integer, d: &Integer, n: &Integer, s: &Integer) -> (r: bool)
    requires
        val(*n) > 2,
        val(*a) >= 0,
        val(*d) == odd_part(val(*n)),
        val(*d) > 0,
        val(*s) == two_part(val(*n)),
    ensures
        r == is_witness(val(*a), val(*n)),
{
    let one = from_u64(1);
    let two = from_u64(2);
    let n_minus_1 = minus(n, &one);
    let mut cur = pow_mod(a, d, n);
    proof {
        vstd::arithmetic::power2::lemma2_to64();
        assert(val(*d) * pow2(0) == val(*d));
    }
    if equal(&cur, &one) {
        return false;
    }
    let mut i = from_u64(0);
    while less(&i, s)
        invariant
            val(*n) > 2,
            val(*d) == odd_part(val(*n)),
            val(*d) > 0,
            val(*s) == two_part(val(*n)),
            val(one) == 1,
            val(two) == 2,
            val(n_minus_1) == val(*n) - 1,
            0 <= val(i) <= val(*s),
            val(cur) == term(val(*a), val(*n), val(i) as nat),
            term(val(*a), val(*n), 0) != 1,
            forall|r: nat| r < val(i) ==> #[trigger] term(val(*a), val(*n), r) != val(*n) - 1,
        decreases val(*s) - val(i),
    {
        if equal(&cur, &n_minus_1) {
            return false;
        }
        proof {
            lemma_next_term(val(*a), val(*n), val(i) as nat);
            lemma_mod_bound(pow(val(*a), (val(*d) * pow2(val(i) as nat)) as nat), val(*n));
            lemma_pow_adds(val(cur), 1, 1);
            lemma_pow1(val(cur));
        }
        cur = pow_mod(&cur, &two, n);
        i = plus(&i, &one);
    }
    true
}

/// The Miller-Rabin test of `n` with the witnesses that belong to its size.
///
/// 2 and 3 are prime; numbers below 2 and even numbers are not. For any other
/// `n` the answer is yes unless one of the witnesses below `n - 1` shows `n`
/// to be composite. The witnesses are the first primes, as many as are known
/// to decide every number of the size of `n`; above the last known limit all
/// 39 primes up to 167 are tried. A prime always gets the answer yes.
pub fn is_rabin_miller_prime(n: &Integer) -> (r: bool)
    ensures
        r == rabin_miller(val(*n)),
        is_prime(val(*n)) ==> r,
{
    proof {
        if is_prime(val(*n)) {
            lemma_prime_passes(val(*n));
        }
    }
    let one = from_u64(1);
    let two = from_u64(2);
    let three = from_u64(3);
    let zero = from_u64(0);
    if equal(n, &two) || equal(n, &three) {
        return true;
    }
    if !less(&one, n) {
        return false;
    }
    let (_, parity) = div_rem(n, &two);
    if equal(&parity, &zero) {
        return false;
    }
    let n_minus_1 = minus(n, &one);
    let (d, s) = strip_counting(n_minus_1, &two);
    let tests = primes_to_test(n);
    let mut i: usize = 0;
    while i < tests.len()
        invariant
            i <= tests.len(),
            val(*n) > 3,
            val(one) == 1,
            val(d) == odd_part(val(*n)),
            val(d) > 0,
            val(s) == two_part(val(*n)),
            tests@ == witnesses(val(*n)),
            passes(val(*n), i as int),
            is_prime(val(*n)) ==> passes(val(*n), tests.len() as int),
        decreases tests.len() - i,
    {
        let a = from_u64(tests[i]);
        let a_plus_1 = plus(&a, &one);
        if less(&a_plus_1, n) {
            if try_composite(&a, &d, n, &s) {
                return false;
            }
        }
        i = i + 1;
    }
    true
}

} // verus!
