//! Arbitrary-precision integers.
//!
//! The numbers are `rug::Integer` values. Verus cannot look inside one, so
//! this module gives every such value a mathematical reading, [`val`], and
//! states what each operation used by the crate does to it. The functions
//! below are the only places where the big-integer backend is called; their
//! contracts are taken on trust from the backend's documentation.

use vstd::prelude::*;
use vstd::arithmetic::power2::pow2;
use vstd::arithmetic::power::pow;
use rug::Integer;
use crate::arith::{bit, coprime, is_gcd, is_prime, legendre_symbol};

verus! {

/// `rug::Integer`, an integer of any size. Nothing is said of what is inside
/// a value; [`val`] gives the number that it stands for.
#[verifier::external_type_specification]
#[verifier::external_body]
pub struct ExInteger(Integer);

/// The integer that a big-integer value holds. Every contract below speaks
/// of big integers through this reading.
pub uninterp spec fn val(x: Integer) -> int;

/// The integers that a list of big-integer values holds.
pub open spec fn values(xs: Seq<Integer>) -> Seq<int> {
    xs.map_values(|x: Integer| val(x))
}

/// What `Integer::legendre` returns for `a` and `p`, whatever `p` is: the
/// backend computes it from the two numbers alone.
pub uninterp spec fn symbol(a: int, p: int) -> int;

/// `Integer::from` on a `u64`: the result holds the same number.
#[verifier::external_body]
pub(crate) fn from_u64(x: u64) -> (r: Integer)
    ensures
        val(r) == x,
{
    Integer::from(x)
}

/// `Integer::from` on an `i64`: the result holds the same number.
#[verifier::external_body]
pub(crate) fn from_i64(x: i64) -> (r: Integer)
    ensures
        val(r) == x,
{
    Integer::from(x)
}

/// `Integer::to_u64`: the number itself when it fits in a `u64`, nothing
/// otherwise.
#[verifier::external_body]
pub(crate) fn to_u64(a: &Integer) -> (r: Option<u64>)
    ensures
        r.is_some() <==> 0 <= val(*a) <= u64::MAX,
        r.is_some() ==> r.unwrap() == val(*a),
{
    a.to_u64()
}

/// `Integer::to_i64`: the number itself when it fits in an `i64`, nothing
/// otherwise.
#[verifier::external_body]
pub(crate) fn to_i64(a: &Integer) -> (r: Option<i64>)
    ensures
        r.is_some() <==> i64::MIN <= val(*a) <= i64::MAX,
        r.is_some() ==> r.unwrap() == val(*a),
{
    a.to_i64()
}

/// `Integer::to_u128`: the number itself when it fits in a `u128`, nothing
/// otherwise.
#[verifier::external_body]
pub(crate) fn to_u128(a: &Integer) -> (r: Option<u128>)
    ensures
        r.is_some() <==> 0 <= val(*a) <= u128::MAX,
        r.is_some() ==> r.unwrap() == val(*a),
{
    a.to_u128()
}

/// `Integer::clone`: a copy holds the same number.
#[verifier::external_body]
pub(crate) fn copy(a: &Integer) -> (r: Integer)
    ensures
        val(r) == val(*a),
{
    a.clone()
}

/// The `==` of `Integer`: equality of the numbers held.
#[verifier::external_body]
pub(crate) fn equal(a: &Integer, b: &Integer) -> (r: bool)
    ensures
        r == (val(*a) == val(*b)),
{
    *a == *b
}

/// The `<` of `Integer`: the order of the numbers held.
#[verifier::external_body]
pub(crate) fn less(a: &Integer, b: &Integer) -> (r: bool)
    ensures
        r == (val(*a) < val(*b)),
{
    *a < *b
}

/// The `+` of `Integer`: the sum, without any bound.
#[verifier::external_body]
pub(crate) fn plus(a: &Integer, b: &Integer) -> (r: Integer)
    ensures
        val(r) == val(*a) + val(*b),
{
    Integer::from(a + b)
}

/// The `-` of `Integer`: the difference, without any bound.
#[verifier::external_body]
pub(crate) fn minus(a: &Integer, b: &Integer) -> (r: Integer)
    ensures
        val(r) == val(*a) - val(*b),
{
    Integer::from(a - b)
}

/// The `*` of `Integer`: the product, without any bound.
#[verifier::external_body]
pub(crate) fn times(a: &Integer, b: &Integer) -> (r: Integer)
    ensures
        val(r) == val(*a) * val(*b),
{
    Integer::from(a * b)
}

/// `Integer::div_rem_euc` by a positive divisor: the quotient rounded down
/// and the remainder, which lies in `[0, d)`.
#[verifier::external_body]
pub(crate) fn div_rem(a: &Integer, d: &Integer) -> (r: (Integer, Integer))
    requires
        val(*d) > 0,
    ensures
        val(r.0) == val(*a) / val(*d),
        val(r.1) == val(*a) % val(*d),
{
    a.clone().div_rem_euc(d.clone())
}

/// The `<<` of `Integer` by a bit count: multiplication by that power of two.
#[verifier::external_body]
pub(crate) fn shift_left(a: &Integer, k: u32) -> (r: Integer)
    ensures
        val(r) == val(*a) * pow2(k as nat),
{
    Integer::from(a << k)
}

/// `Integer::get_bit` on a non-negative number: the bit of that index in its
/// binary expansion.
#[verifier::external_body]
pub(crate) fn test_bit(a: &Integer, index: u32) -> (r: bool)
    requires
        val(*a) >= 0,
    ensures
        r == bit(val(*a), index as nat),
{
    a.get_bit(index)
}

/// The `^` of `Integer` on two non-negative numbers: the non-negative number
/// whose binary expansion has a one exactly where the two expansions differ.
#[verifier::external_body]
pub(crate) fn xor(a: &Integer, b: &Integer) -> (r: Integer)
    requires
        val(*a) >= 0,
        val(*b) >= 0,
    ensures
        val(r) >= 0,
        forall|i: nat| #[trigger] bit(val(r), i) == (bit(val(*a), i) != bit(val(*b), i)),
{
    Integer::from(a ^ b)
}

/// `Integer::sqrt` on a non-negative number: the square root rounded down.
#[verifier::external_body]
pub(crate) fn isqrt(a: &Integer) -> (r: Integer)
    requires
        val(*a) >= 0,
    ensures
        val(r) >= 0,
        val(r) * val(r) <= val(*a) < (val(r) + 1) * (val(r) + 1),
{
    a.clone().sqrt()
}

/// `Integer::gcd`: the greatest common divisor, positive unless both numbers
/// are zero.
#[verifier::external_body]
pub(crate) fn gcd(a: &Integer, b: &Integer) -> (r: Integer)
    ensures
        is_gcd(val(r), val(*a), val(*b)),
{
    a.clone().gcd(b)
}

/// `Integer::pow_mod` with a non-negative base and exponent and a positive
/// modulus: the power reduced into `[0, m)`. On these inputs the backend
/// always has an answer.
#[verifier::external_body]
pub(crate) fn pow_mod(base: &Integer, e: &Integer, m: &Integer) -> (r: Integer)
    requires
        val(*base) >= 0,
        val(*e) >= 0,
        val(*m) > 0,
    ensures
        val(r) == pow(val(*base), val(*e) as nat) % val(*m),
{
    match base.clone().pow_mod(e, m) {
        Ok(power) => power,
        Err(unchanged) => unchanged,
    }
}

/// `Integer::invert` with a positive modulus: an inverse in `[0, m)` exactly
/// when the number and the modulus are co-prime.
#[verifier::external_body]
pub(crate) fn invert(a: &Integer, m: &Integer) -> (r: Option<Integer>)
    requires
        val(*m) > 0,
    ensures
        r.is_some() <==> coprime(val(*a), val(*m)),
        r.is_some() ==> 0 <= val(r.unwrap()) < val(*m) && (val(*a) * val(r.unwrap())) % val(*m)
            == 1int % val(*m),
{
    match a.clone().invert(m) {
        Ok(inverse) => Some(inverse),
        Err(_) => None,
    }
}

/// `Integer::legendre`: for an odd prime `p`, the Legendre symbol `(a|p)`.
/// For any other `p` only the name [`symbol`] is given to the result.
#[verifier::external_body]
pub(crate) fn legendre(a: &Integer, p: &Integer) -> (r: i32)
    ensures
        r == symbol(val(*a), val(*p)),
        is_prime(val(*p)) && val(*p) % 2 == 1 ==> r == legendre_symbol(val(*a), val(*p)),
{
    a.legendre(p)
}

/// What `Integer::next_prime` returns for the number `a`: the number that the
/// backend takes for the next prime above `a`.
pub uninterp spec fn following_prime(a: int) -> int;

/// `Integer::next_prime`: the number that the backend takes for the next
/// prime above the argument. It depends on the argument alone, is above it
/// and is 2 at least. The backend finds it with a probabilistic test, so its
/// primality is not part of the contract.
#[verifier::external_body]
pub(crate) fn next_prime(a: &Integer) -> (r: Integer)
    ensures
        val(r) == following_prime(val(*a)),
        val(r) > val(*a),
        val(r) >= 2,
{
    a.clone().next_prime()
}

} // verus!
