//! Facts about the binary expansion of non-negative integers.

use vstd::prelude::*;
use vstd::arithmetic::div_mod::{
    lemma_basic_div, lemma_div_by_multiple, lemma_div_denominator, lemma_fundamental_div_mod,
    lemma_fundamental_div_mod_converse,
};
use vstd::arithmetic::power2::{
    lemma_pow2_adds, lemma_pow2_pos, lemma_pow2_strictly_increases, lemma_pow2_unfold, pow2,
};
use crate::arith::bit;

verus! {

/// A number below `2^j` has no bit at `j` or above.
pub proof fn lemma_no_bit_above(v: int, j: nat, c: nat)
    requires
        0 <= v < pow2(j),
        c >= j,
    ensures
        !bit(v, c),
{
    if c > j {
        lemma_pow2_strictly_increases(j, c);
    }
    lemma_basic_div(v, pow2(c) as int);
}

/// Zero has no bit.
pub proof fn lemma_zero_has_no_bit(c: nat)
    ensures
        !bit(0, c),
{
    lemma_pow2_pos(0);
    lemma_no_bit_above(0, 0, c);
}

/// `2^k` is even for `k >= 1`.
proof fn lemma_pow2_even(k: nat)
    requires
        k >= 1,
    ensures
        pow2(k) % 2 == 0,
{
    lemma_pow2_unfold(k);
}

/// `2^j` splits as `2^c * 2^(j-c)`.
proof fn lemma_pow2_split(j: nat, c: nat)
    requires
        c <= j,
    ensures
        pow2(j) == pow2((j - c) as nat) * pow2(c),
        pow2(c) > 0,
        pow2((j - c) as nat) > 0,
{
    lemma_pow2_adds((j - c) as nat, c);
    lemma_pow2_pos(c);
    lemma_pow2_pos((j - c) as nat);
}

/// `2^j` has the bit `j` and no other.
pub proof fn lemma_bit_of_pow2(j: nat, c: nat)
    ensures
        bit(pow2(j) as int, c) == (c == j),
{
    lemma_pow2_pos(j);
    if c > j {
        lemma_pow2_strictly_increases(j, c);
        lemma_basic_div(pow2(j) as int, pow2(c) as int);
    } else {
        lemma_pow2_split(j, c);
        lemma_div_by_multiple(pow2((j - c) as nat) as int, pow2(c) as int);
        if c < j {
            lemma_pow2_even((j - c) as nat);
        } else {
            assert(pow2(0) == 1) by {
                vstd::arithmetic::power2::lemma2_to64();
            }
        }
    }
}

/// Adding `2^j` to a number below `2^j` sets the bit `j` and leaves every
/// other bit as it was.
pub proof fn lemma_bit_of_sum(v: int, j: nat, c: nat)
    requires
        0 <= v < pow2(j),
    ensures
        bit(v + pow2(j), c) == (c == j || bit(v, c)),
        v + pow2(j) < pow2(j + 1),
{
    lemma_pow2_unfold(j + 1);
    if c > j {
        if c > j + 1 {
            lemma_pow2_strictly_increases(j + 1, c);
        }
        lemma_basic_div(v + pow2(j), pow2(c) as int);
        lemma_no_bit_above(v, j, c);
    } else {
        lemma_pow2_split(j, c);
        let d = pow2(c) as int;
        let m = pow2((j - c) as nat) as int;
        lemma_fundamental_div_mod(v, d);
        let q = v / d;
        let r = v % d;
        assert(v + pow2(j) == (q + m) * d + r) by (nonlinear_arith)
            requires
                v == d * q + r,
                pow2(j) == m * d,
        ;
        lemma_fundamental_div_mod_converse(v + pow2(j), d, q + m, r);
        if c < j {
            lemma_pow2_even((j - c) as nat);
        } else {
            lemma_basic_div(v, d);
            assert(pow2(0) == 1) by {
                vstd::arithmetic::power2::lemma2_to64();
            }
        }
    }
}

/// Bit `c + 1` of a number is bit `c` of its half.
pub proof fn lemma_bit_of_half(v: int, c: nat)
    requires
        v >= 0,
    ensures
        bit(v, c + 1) == bit(v / 2, c),
{
    lemma_pow2_unfold(c + 1);
    lemma_pow2_pos(c);
    lemma_div_denominator(v, 2, pow2(c) as int);
}

/// A non-negative number without any bit is zero.
pub proof fn lemma_no_bit_is_zero(v: int)
    requires
        v >= 0,
        forall|c: nat| !#[trigger] bit(v, c),
    ensures
        v == 0,
    decreases v,
{
    if v > 0 {
        assert(pow2(0) == 1) by {
            vstd::arithmetic::power2::lemma2_to64();
        }
        assert(!bit(v, 0));
        assert(v % 2 == 0);
        assert forall|c: nat| !#[trigger] bit(v / 2, c) by {
            lemma_bit_of_half(v, c);
            assert(!bit(v, c + 1));
        }
        lemma_no_bit_is_zero(v / 2);
    }
}

/// Two non-negative numbers with the same bits are the same number.
pub proof fn lemma_same_bits_same_number(u: int, v: int)
    requires
        u >= 0,
        v >= 0,
        forall|c: nat| #[trigger] bit(u, c) == bit(v, c),
    ensures
        u == v,
    decreases u + v,
{
    if u == 0 {
        assert forall|c: nat| !#[trigger] bit(v, c) by {
            lemma_zero_has_no_bit(c);
            assert(bit(u, c) == bit(v, c));
        }
        lemma_no_bit_is_zero(v);
    } else if v == 0 {
        assert forall|c: nat| !#[trigger] bit(u, c) by {
            lemma_zero_has_no_bit(c);
            assert(bit(u, c) == bit(v, c));
        }
        lemma_no_bit_is_zero(u);
    } else {
        assert(pow2(0) == 1) by {
            vstd::arithmetic::power2::lemma2_to64();
        }
        assert(bit(u, 0) == bit(v, 0));
        assert(u % 2 == v % 2);
        assert forall|c: nat| #[trigger] bit(u / 2, c) == bit(v / 2, c) by {
            lemma_bit_of_half(u, c);
            lemma_bit_of_half(v, c);
            assert(bit(u, c + 1) == bit(v, c + 1));
        }
        lemma_same_bits_same_number(u / 2, v / 2);
    }
}

/// The sum of two non-negative numbers over GF(2), bit by bit: the number
/// with a one exactly where the binary expansions of the two differ.
pub open spec fn xor_value(a: int, b: int) -> int
    decreases a,
{
    if a <= 0 {
        if b < 0 {
            0
        } else {
            b
        }
    } else if b <= 0 {
        a
    } else {
        2 * xor_value(a / 2, b / 2) + if a % 2 == b % 2 {
            0int
        } else {
            1int
        }
    }
}

/// The bits of [`xor_value`]: it has a one exactly where the two numbers
/// differ.
pub proof fn lemma_xor_value_bits(a: int, b: int, c: nat)
    requires
        a >= 0,
        b >= 0,
    ensures
        xor_value(a, b) >= 0,
        bit(xor_value(a, b), c) == (bit(a, c) != bit(b, c)),
    decreases a, c,
{
    if a == 0 {
        lemma_zero_has_no_bit(c);
    } else if b == 0 {
        lemma_zero_has_no_bit(c);
    } else {
        let x = xor_value(a / 2, b / 2);
        let r = xor_value(a, b);
        lemma_xor_value_bits(a / 2, b / 2, 0);
        assert(r / 2 == x && r % 2 == (if a % 2 == b % 2 {
            0int
        } else {
            1int
        }));
        if c == 0 {
            assert(pow2(0) == 1) by {
                vstd::arithmetic::power2::lemma2_to64();
            }
        } else {
            let d = (c - 1) as nat;
            lemma_xor_value_bits(a / 2, b / 2, d);
            lemma_bit_of_half(r, d);
            lemma_bit_of_half(a, d);
            lemma_bit_of_half(b, d);
        }
    }
}

/// A non-negative number with a one exactly where `a` and `b` differ is
/// [`xor_value`]`(a, b)`.
pub proof fn lemma_xor_value_is_unique(a: int, b: int, r: int)
    requires
        a >= 0,
        b >= 0,
        r >= 0,
        forall|c: nat| #[trigger] bit(r, c) == (bit(a, c) != bit(b, c)),
    ensures
        r == xor_value(a, b),
{
    assert forall|c: nat| #[trigger] bit(r, c) == bit(xor_value(a, b), c) by {
        lemma_xor_value_bits(a, b, c);
    }
    lemma_xor_value_bits(a, b, 0);
    lemma_same_bits_same_number(r, xor_value(a, b));
}

} // verus!
