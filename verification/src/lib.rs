//! Integer factorisation by the multiple-polynomial quadratic sieve.
//!
//! Given an odd composite `N`, the sieve collects congruences
//! `X^2 = A^2 * Y (mod N)` in which `Y` factors over a base of small primes,
//! finds a product of them in which every prime occurs to an even power, and
//! so obtains a congruence of two squares, whose difference shares a factor
//! with `N`.
//!
//! The parts, leaves first:
//!
//! - [`big`] is the interface to the big-integer backend, and [`arith`],
//!   [`bits`] and [`primes`] hold the arithmetic that the contracts speak of;
//! - [`fermat`] and [`euler`] prove the theorems of Fermat, Wilson and Euler
//!   on which the number theory below rests;
//! - [`tonelli_shanks`] takes square roots modulo a prime, for the reasons
//!   given in [`shanks`], and [`rabin_miller`] tests primality;
//! - [`polynomial`] generates the sieving polynomials;
//! - [`sieve`] marks and tries the positions of one polynomial, with trial
//!   division in [`smooth`], and [`roots`] says why the marked positions are
//!   the right ones;
//! - [`manager`] collects the relations and pairs the partial ones;
//! - [`algebra`] finds the dependencies among the relations, over [`gf2`],
//!   and [`extractor`] turns each into a candidate divisor; [`squares`] says
//!   why a dependency gives a congruence of squares;
//! - [`serial_MPQS`] prepares the sieve and runs it on one thread;
//!   [`memory_shared_MPQS`] and [`message_MPQS`] hold what the workers and
//!   the coordinator of the two parallel sieves decide.
//!
//! The decimal logarithms that tune the sieve are taken by the caller and
//! handed in as fixed-point numbers, see [`serial_MPQS::initialize_qs`].

#![allow(non_snake_case)]

use vstd::prelude::*;
use rug::Integer;
use crate::arith::{coprime, is_prime, lemma_multiple_of_multiple, lemma_sum_of_multiples};
use crate::big::{copy, div_rem, equal, from_u64, less, minus, plus, times, val};
use crate::extractor::optional_value;
use crate::manager::Holdings;
use crate::rabin_miller::{is_rabin_miller_prime, rabin_miller};
use crate::serial_MPQS::{ends_search, initialize_qs, mpqs, no_usable_factor_base, InitResult};

pub mod algebra;
pub mod arith;
pub mod big;
pub mod bits;
pub mod euler;
pub mod extractor;
pub mod fermat;
pub mod gf2;
pub mod manager;
pub mod memory_shared_MPQS;
pub mod message_MPQS;
pub mod polynomial;
pub mod primes;
pub mod rabin_miller;
pub mod relation;
pub mod roots;
pub mod serial_MPQS;
pub mod shanks;
pub mod sieve;
pub mod smooth;
pub mod squares;
pub mod tonelli_shanks;

verus! {

/// A negative number divides what its opposite divides.
proof fn lemma_divides_by_opposite(n: int, d: int)
    requires
        d < 0,
    ensures
        (n % d == 0) == (n % (-d) == 0),
{
    let e = -d;
    if n % e == 0 {
        vstd::arithmetic::div_mod::lemma_fundamental_div_mod(n, e);
        assert(n == (-(n / e)) * d) by (nonlinear_arith)
            requires
                n == e * (n / e),
                e == -d,
        ;
        assert(n % d == 0) by (nonlinear_arith)
            requires
                n == (-(n / e)) * d,
                d < 0,
        ;
    }
    if n % d == 0 {
        assert(n == d * (n / d)) by (nonlinear_arith)
            requires
                n % d == 0,
                d < 0,
        ;
        assert(n == e * (-(n / d))) by (nonlinear_arith)
            requires
                n == d * (n / d),
                e == -d,
        ;
        assert(e * (-(n / d)) == (-(n / d)) * e) by (nonlinear_arith);
        vstd::arithmetic::div_mod::lemma_mod_multiples_basic(-(n / d), e);
    }
}

/// The cofactor of a divisor `d` of `n`: the number `q` with `d * q = n`.
/// The divisor may be negative. There is no cofactor when `d` is zero or
/// does not divide `n`.
pub fn cofactor(n: &Integer, d: &Integer) -> (r: Option<Integer>)
    ensures
        r.is_some() <==> val(*d) != 0 && val(*n) % val(*d) == 0,
        r.is_some() ==> val(*d) * val(r.unwrap()) == val(*n),
{
    let zero = from_u64(0);
    if equal(d, &zero) {
        return None;
    }
    if less(d, &zero) {
        let opposite = minus(&zero, d);
        let (q, rem) = div_rem(n, &opposite);
        proof {
            lemma_divides_by_opposite(val(*n), val(*d));
        }
        if !equal(&rem, &zero) {
            return None;
        }
        let cof = minus(&zero, &q);
        proof {
            vstd::arithmetic::div_mod::lemma_fundamental_div_mod(val(*n), val(opposite));
            assert(val(*d) * val(cof) == val(*n)) by (nonlinear_arith)
                requires
                    val(*n) == val(opposite) * val(q),
                    val(opposite) == -val(*d),
                    val(cof) == -val(q),
            ;
        }
        return Some(cof);
    }
    let (q, rem) = div_rem(n, d);
    if !equal(&rem, &zero) {
        return None;
    }
    proof {
        vstd::arithmetic::div_mod::lemma_fundamental_div_mod(val(*n), val(*d));
    }
    Some(q)
}

/// Whether the outcome of a factorisation is sound: a divisor found must
/// divide `n`, whatever its sign, and when none was found `n` must pass the
/// Miller-Rabin test.
pub fn check_is_divisor(n: &Integer, qs: &Option<Integer>) -> (ok: bool)
    ensures
        ok == match *qs {
            Some(d) => val(d) != 0 && val(*n) % val(d) == 0,
            None => rabin_miller(val(*n)),
        },
{
    match qs {
        Some(d) => cofactor(n, d).is_some(),
        None => is_rabin_miller_prime(n),
    }
}

/// One step of the extended Euclidean algorithm keeps the two congruences
/// `inv * a0 = a` and `x0 * a0 = m` modulo `m0`: with `a = q m + rem`, the
/// pair `(a, m)` becomes `(m, rem)` and `(inv, x0)` becomes
/// `(x0, inv - q x0)`.
proof fn lemma_inverse_step(a0: int, m0: int, a: int, m: int, x0: int, inv: int, q: int, rem: int)
    requires
        m0 > 0,
        a == q * m + rem,
        (inv * a0 - a) % m0 == 0,
        (x0 * a0 - m) % m0 == 0,
    ensures
        ((inv - q * x0) * a0 - rem) % m0 == 0,
{
    let u = inv * a0 - a;
    let v = x0 * a0 - m;
    lemma_multiple_of_multiple(-q, v, m0);
    lemma_sum_of_multiples(u, (-q) * v, m0);
    assert(u + (-q) * v == (inv - q * x0) * a0 - rem) by (nonlinear_arith)
        requires
            u == inv * a0 - a,
            v == x0 * a0 - m,
            a == q * m + rem,
    ;
}

/// The remainder of a division is co-prime to the divisor when the dividend
/// is.
proof fn lemma_remainder_stays_coprime(a: int, m: int)
    requires
        m > 0,
        coprime(a, m),
    ensures
        coprime(m, a % m),
{
    assert forall|d: int| d > 1 implies !(#[trigger] (m % d) == 0 && (a % m) % d == 0) by {
        if m % d == 0 && (a % m) % d == 0 {
            vstd::arithmetic::div_mod::lemma_fundamental_div_mod(a, m);
            lemma_multiple_of_multiple(a / m, m, d);
            lemma_sum_of_multiples((a / m) * m, a % m, d);
            assert((a / m) * m == m * (a / m)) by (nonlinear_arith);
            assert(a % d == 0);
        }
    }
}

/// Reducing a number modulo `m0` keeps its product with `a0` modulo `m0`:
/// with `inv = q m0 + rem` and `inv * a0 = 1`, also `a0 * rem = 1`.
proof fn lemma_reduced_inverse(a0: int, m0: int, inv: int, q: int, rem: int)
    requires
        m0 > 1,
        inv == m0 * q + rem,
        (inv * a0 - 1) % m0 == 0,
    ensures
        (a0 * rem) % m0 == 1,
{
    vstd::arithmetic::div_mod::lemma_mod_self_0(m0);
    lemma_multiple_of_multiple(-(q * a0), m0, m0);
    lemma_sum_of_multiples(inv * a0 - 1, (-(q * a0)) * m0, m0);
    assert(inv * a0 - 1 + (-(q * a0)) * m0 == a0 * rem - 1) by (nonlinear_arith)
        requires
            inv == m0 * q + rem,
    ;
    vstd::arithmetic::div_mod::lemma_mod_equivalence(a0 * rem, 1, m0);
    vstd::arithmetic::div_mod::lemma_small_mod(1, m0 as nat);
}

/// The inverse of `a0` modulo `m0`, by the extended Euclidean algorithm.
///
/// The result is the number `r` with `0 <= r < m0` and `a0 * r = 1 (mod m0)`;
/// for the modulus 1 that is 0. `a0` and `m0` must be co-prime.
pub fn modular_inv(a0: Integer, m0: Integer) -> (r: Integer)
    requires
        val(m0) >= 1,
        coprime(val(a0), val(m0)),
    ensures
        0 <= val(r) < val(m0),
        (val(a0) * val(r)) % val(m0) == 1int % val(m0),
{
    let one = from_u64(1);
    if equal(&m0, &one) {
        proof {
            vstd::arithmetic::div_mod::lemma_mod_multiples_basic(0, 1);
        }
        return from_u64(0);
    }
    let (lead, start) = div_rem(&a0, &m0);
    let mut a = start;
    let mut m = copy(&m0);
    let mut x0 = from_u64(0);
    let mut inv = from_u64(1);
    proof {
        vstd::arithmetic::div_mod::lemma_fundamental_div_mod(val(a0), val(m0));
        vstd::arithmetic::div_mod::lemma_mod_bound(val(a0), val(m0));
        if val(a) == 0 {
            vstd::arithmetic::div_mod::lemma_mod_self_0(val(m0));
            assert(val(a0) % val(m0) == 0 && val(m0) % val(m0) == 0);
            assert(false);
        }
        lemma_remainder_stays_coprime(val(a0), val(m0));
        assert(coprime(val(a), val(m))) by {
            assert forall|d: int| d > 1 implies !(#[trigger] (val(a) % d) == 0 && val(m) % d
                == 0) by {
                if val(a) % d == 0 && val(m) % d == 0 {
                    assert(val(m0) % d == 0 && (val(a0) % val(m0)) % d == 0);
                }
            }
        }
        vstd::arithmetic::div_mod::lemma_mod_multiples_basic(val(lead), val(m0));
        assert(val(inv) * val(a0) - val(a) == val(lead) * val(m0)) by (nonlinear_arith)
            requires
                val(inv) == 1,
                val(a0) == val(m0) * val(lead) + val(a),
        ;
        assert(val(x0) * val(a0) - val(m) == (-1) * val(m0)) by (nonlinear_arith)
            requires
                val(x0) == 0,
                val(m) == val(m0),
        ;
        vstd::arithmetic::div_mod::lemma_mod_multiples_basic(-1, val(m0));
    }
    while less(&one, &a)
        invariant
            val(one) == 1,
            val(m0) > 1,
            val(m) >= 0,
            val(a) >= 1,
            coprime(val(a), val(m)),
            (val(inv) * val(a0) - val(a)) % val(m0) == 0,
            (val(x0) * val(a0) - val(m)) % val(m0) == 0,
        decreases val(m),
    {
        proof {
            if val(m) == 0 {
                vstd::arithmetic::div_mod::lemma_mod_self_0(val(a));
                assert(val(a) % val(a) == 0 && val(m) % val(a) == 0);
                assert(false);
            }
        }
        let (q, rem) = div_rem(&a, &m);
        let q_x0 = times(&q, &x0);
        let next = minus(&inv, &q_x0);
        proof {
            vstd::arithmetic::div_mod::lemma_fundamental_div_mod(val(a), val(m));
            vstd::arithmetic::div_mod::lemma_mod_bound(val(a), val(m));
            assert(val(a) == val(q) * val(m) + val(rem)) by (nonlinear_arith)
                requires
                    val(a) == val(m) * val(q) + val(rem),
            ;
            lemma_inverse_step(
                val(a0),
                val(m0),
                val(a),
                val(m),
                val(x0),
                val(inv),
                val(q),
                val(rem),
            );
            lemma_remainder_stays_coprime(val(a), val(m));
        }
        a = m;
        m = rem;
        inv = x0;
        x0 = next;
    }
    let (q, r) = div_rem(&inv, &m0);
    proof {
        vstd::arithmetic::div_mod::lemma_fundamental_div_mod(val(inv), val(m0));
        vstd::arithmetic::div_mod::lemma_mod_bound(val(inv), val(m0));
        lemma_reduced_inverse(val(a0), val(m0), val(inv), val(q), val(r));
        vstd::arithmetic::div_mod::lemma_small_mod(1, val(m0) as nat);
    }
    r
}

/// Why a number is not put to the sieve.
#[derive(Debug, Clone, Copy, PartialEq, Eq, Structural)]
pub enum InvalidInput {
    /// The text is empty or holds something other than decimal digits.
    NotANumber,
    /// The number is 3 or less.
    TooSmall,
    /// The number is even.
    Even,
    /// The number passes the Miller-Rabin test: it is prime as far as the
    /// test can tell.
    Prime,
}

/// The number that a text of decimal digits denotes, read from the left.
pub open spec fn decimal_value(digits: Seq<u8>) -> int
    decreases digits.len(),
{
    if digits.len() == 0 {
        0
    } else {
        10 * decimal_value(digits.drop_last()) + (digits.last() - 48)
    }
}

/// Every byte is one of the digits `0` to `9`.
pub open spec fn all_digits(text: Seq<u8>) -> bool {
    forall|i: int| 0 <= i < text.len() ==> 48 <= #[trigger] text[i] <= 57
}

/// Reads a number written in decimal digits. There is no number in an empty
/// text or in one that holds anything but digits.
pub fn parse_number(text: &[u8]) -> (r: Result<Integer, InvalidInput>)
    ensures
        match r {
            Ok(n) => text.len() > 0 && all_digits(text@) && val(n) == decimal_value(text@),
            Err(e) => e == InvalidInput::NotANumber && (text.len() == 0 || !all_digits(text@)),
        },
{
    if text.len() == 0 {
        return Err(InvalidInput::NotANumber);
    }
    let ten = from_u64(10);
    let mut n = from_u64(0);
    let mut i: usize = 0;
    while i < text.len()
        invariant
            i <= text.len(),
            val(ten) == 10,
            all_digits(text@.take(i as int)),
            val(n) == decimal_value(text@.take(i as int)),
        decreases text.len() - i,
    {
        let byte = text[i];
        if byte < 48 || byte > 57 {
            return Err(InvalidInput::NotANumber);
        }
        let shifted = times(&ten, &n);
        let digit = from_u64((byte - 48) as u64);
        n = plus(&shifted, &digit);
        proof {
            let next = text@.take(i + 1);
            assert(next.drop_last() =~= text@.take(i as int));
            assert(next.last() == byte);
            assert forall|k: int| 0 <= k < next.len() implies 48 <= #[trigger] next[k] <= 57 by {
                if k < i {
                    assert(text@.take(i as int)[k] == next[k]);
                }
            }
        }
        i = i + 1;
    }
    proof {
        assert(text@.take(text.len() as int) =~= text@);
    }
    Ok(n)
}

/// What [`validate`] answers for `n`.
pub open spec fn verdict(n: int) -> Result<(), InvalidInput> {
    if n <= 3 {
        Err(InvalidInput::TooSmall)
    } else if n % 2 == 0 {
        Err(InvalidInput::Even)
    } else if rabin_miller(n) {
        Err(InvalidInput::Prime)
    } else {
        Ok(())
    }
}

/// Whether `n` is a number for the sieve: above 3, odd, and composite by the
/// Miller-Rabin test. A prime is turned away here and never reaches the
/// sieve.
pub fn validate(n: &Integer) -> (r: Result<(), InvalidInput>)
    ensures
        r == verdict(val(*n)),
        is_prime(val(*n)) && val(*n) > 3 ==> r == Err::<(), InvalidInput>(InvalidInput::Prime),
{
    proof {
        if is_prime(val(*n)) && val(*n) > 3 {
            assert(val(*n) % 2 != 0);
        }
    }
    let zero = from_u64(0);
    let two = from_u64(2);
    let four = from_u64(4);
    if less(n, &four) {
        return Err(InvalidInput::TooSmall);
    }
    let (_, parity) = div_rem(n, &two);
    if equal(&parity, &zero) {
        return Err(InvalidInput::Even);
    }
    if is_rabin_miller_prime(n) {
        return Err(InvalidInput::Prime);
    }
    Ok(())
}

/// What a factorisation of a number that [`validate`] lets through gives:
/// nothing when the factor base cannot be used, and else what the search
/// ends with on the tables that belong to the number.
pub open spec fn is_outcome(
    found: Option<int>,
    n: int,
    bound: u32,
    tlog: Seq<u32>,
    log_magnitude: u32,
    max: int,
) -> bool {
    ||| found.is_none() && no_usable_factor_base(n, bound, tlog.len())
    ||| exists|init: InitResult, steps: Seq<Holdings>|
        init.wf() && init.describes(n, bound, tlog, log_magnitude) && #[trigger] ends_search(
            steps,
            n,
            init,
            max,
            found,
        )
}

/// Factors `n` on one thread: the number is put to the test first, and only
/// one that is above 3, odd and composite by the Miller-Rabin test reaches
/// the sieve. A prime is turned away with `InvalidInput::Prime`.
///
/// `bound`, `tlog` and `log_magnitude` are what [`initialize_qs`] takes, and
/// `max_polynomials` is the number of steps of the polynomial generator after
/// which the search is given up.
pub fn factor(
    n: &Integer,
    bound: u32,
    tlog: Vec<u32>,
    log_magnitude: u32,
    max_polynomials: u64,
) -> (r: Result<Option<Integer>, InvalidInput>)
    ensures
        match verdict(val(*n)) {
            Err(e) => r == Err::<Option<Integer>, InvalidInput>(e),
            Ok(_) => r.is_ok() && is_outcome(
                optional_value(r.unwrap()),
                val(*n),
                bound,
                tlog@,
                log_magnitude,
                max_polynomials as int,
            ),
        },
        is_prime(val(*n)) && val(*n) > 3 ==> r == Err::<Option<Integer>, InvalidInput>(
            InvalidInput::Prime,
        ),
        r.is_ok() && r.unwrap().is_some() ==> 1 < val(r.unwrap().unwrap()) < val(*n) && val(*n)
            % val(r.unwrap().unwrap()) == 0,
{
    match validate(n) {
        Err(e) => Err(e),
        Ok(_) => {
            let ghost logs = tlog@;
            match initialize_qs(n, bound, tlog, log_magnitude) {
                None => Ok(None),
                Some(init) => {
                    let found = mpqs(n, &init, max_polynomials);
                    proof {
                        let steps = choose|steps: Seq<Holdings>| #[trigger]
                            ends_search(
                                steps,
                                val(*n),
                                init,
                                max_polynomials as int,
                                optional_value(found),
                            );
                        assert(init.describes(val(*n), bound, logs, log_magnitude));
                        assert(ends_search(
                            steps,
                            val(*n),
                            init,
                            max_polynomials as int,
                            optional_value(found),
                        ));
                    }
                    Ok(found)
                },
            }
        },
    }
}

} // verus!
