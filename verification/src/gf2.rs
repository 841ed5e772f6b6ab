//! Linear algebra over GF(2) on rows held as bit sets.
//!
//! A row is a non-negative integer; its bit `c` is the entry of column `c`.
//! Adding two rows is the exclusive or of their bits.

use vstd::prelude::*;
use crate::arith::bit;

verus! {

/// No row is negative.
pub open spec fn non_negative(rows: Seq<int>) -> bool {
    forall|r: int| 0 <= r < rows.len() ==> #[trigger] rows[r] >= 0
}

/// The term that row `j` adds to column `c` of a sum of rows picked by
/// `sel`.
pub open spec fn term(rows: Seq<int>, sel: Seq<bool>, c: nat, j: int) -> bool {
    sel[j] && bit(rows[j], c)
}

/// Column `c` of the sum of those of the first `k` rows that `sel` picks.
pub open spec fn sum_bit(rows: Seq<int>, sel: Seq<bool>, c: nat, k: int) -> bool
    decreases k,
{
    if k <= 0 {
        false
    } else {
        sum_bit(rows, sel, c, k - 1) != term(rows, sel, c, k - 1)
    }
}

/// The rows that a mask picks: row `j` for every bit `j` of the mask.
pub open spec fn picks(mask: int, len: nat) -> Seq<bool> {
    Seq::new(len, |j: int| bit(mask, j as nat))
}

/// Column `c` of the sum of the rows that the bits of `mask` pick.
pub open spec fn combo_bit(rows: Seq<int>, mask: int, c: nat) -> bool {
    sum_bit(rows, picks(mask, rows.len()), c, rows.len() as int)
}

/// `sel` picks at least one row.
pub open spec fn picks_some(sel: Seq<bool>) -> bool {
    exists|r: int| 0 <= r < sel.len() && #[trigger] sel[r]
}

/// The sum of the rows that `sel` picks is not zero.
pub open spec fn sum_is_nonzero(rows: Seq<int>, sel: Seq<bool>) -> bool {
    exists|c: nat| #[trigger] sum_bit(rows, sel, c, rows.len() as int)
}

/// No sum of one or more of the rows is zero.
pub open spec fn independent(rows: Seq<int>) -> bool {
    forall|sel: Seq<bool>|
        sel.len() == rows.len() && #[trigger] picks_some(sel) ==> sum_is_nonzero(rows, sel)
}

/// A sum depends only on the rows that are picked.
pub proof fn lemma_sum_depends_on_picked(
    rows: Seq<int>,
    sel: Seq<bool>,
    rows2: Seq<int>,
    sel2: Seq<bool>,
    c: nat,
    k: int,
)
    requires
        0 <= k <= rows.len(),
        k <= rows2.len(),
        k <= sel.len(),
        k <= sel2.len(),
        forall|j: int| 0 <= j < k ==> sel[j] == sel2[j],
        forall|j: int| 0 <= j < k && sel[j] ==> rows[j] == rows2[j],
    ensures
        sum_bit(rows, sel, c, k) == sum_bit(rows2, sel2, c, k),
    decreases k,
{
    if k > 0 {
        lemma_sum_depends_on_picked(rows, sel, rows2, sel2, c, k - 1);
    }
}

/// A sum is the sum without row `j`, plus the term of row `j`.
pub proof fn lemma_sum_without(rows: Seq<int>, sel: Seq<bool>, c: nat, k: int, j: int)
    requires
        0 <= j < k <= rows.len(),
        sel.len() == rows.len(),
    ensures
        sum_bit(rows, sel, c, k) == (sum_bit(rows, sel.update(j, false), c, k) != term(
            rows,
            sel,
            c,
            j,
        )),
    decreases k,
{
    let without = sel.update(j, false);
    if k - 1 == j {
        lemma_sum_depends_on_picked(rows, sel, rows, without, c, k - 1);
    } else {
        lemma_sum_without(rows, sel, c, k - 1, j);
    }
}

/// A sum is the sum without the rows `i` and `r`, plus their two terms.
pub proof fn lemma_sum_without_two(rows: Seq<int>, sel: Seq<bool>, c: nat, i: int, r: int)
    requires
        0 <= i < rows.len(),
        0 <= r < rows.len(),
        i != r,
        sel.len() == rows.len(),
    ensures
        sum_bit(rows, sel, c, rows.len() as int) == ((sum_bit(
            rows,
            sel.update(i, false).update(r, false),
            c,
            rows.len() as int,
        ) != term(rows, sel, c, i)) != term(rows, sel, c, r)),
{
    let n = rows.len() as int;
    lemma_sum_without(rows, sel, c, n, i);
    lemma_sum_without(rows, sel.update(i, false), c, n, r);
}

/// Exchanging two rows keeps the rows independent.
pub proof fn lemma_swap_keeps_independent(rows: Seq<int>, i: int, r: int)
    requires
        independent(rows),
        0 <= i < rows.len(),
        0 <= r < rows.len(),
    ensures
        independent(rows.update(i, rows[r]).update(r, rows[i])),
{
    let n = rows.len() as int;
    let swapped = rows.update(i, rows[r]).update(r, rows[i]);
    if i == r {
        assert(swapped =~= rows);
    } else {
        assert forall|sel: Seq<bool>|
            sel.len() == swapped.len() && #[trigger] picks_some(sel) implies sum_is_nonzero(
            swapped,
            sel,
        ) by {
            let back = sel.update(i, sel[r]).update(r, sel[i]);
            let witness = choose|w: int| 0 <= w < sel.len() && #[trigger] sel[w];
            let moved = if witness == i {
                r
            } else if witness == r {
                i
            } else {
                witness
            };
            assert(back[moved]);
            assert(picks_some(back));
            assert(sum_is_nonzero(rows, back));
            let c = choose|c: nat| #[trigger] sum_bit(rows, back, c, n);
            lemma_sum_without_two(rows, back, c, i, r);
            lemma_sum_without_two(swapped, sel, c, i, r);
            lemma_sum_depends_on_picked(
                rows,
                back.update(i, false).update(r, false),
                swapped,
                sel.update(i, false).update(r, false),
                c,
                n,
            );
            assert(sum_bit(swapped, sel, c, n));
        }
    }
}

/// Adding row `r` to row `i` keeps the rows independent.
pub proof fn lemma_add_keeps_independent(rows: Seq<int>, i: int, r: int, sum: int)
    requires
        independent(rows),
        0 <= i < rows.len(),
        0 <= r < rows.len(),
        i != r,
        forall|c: nat| #[trigger] bit(sum, c) == (bit(rows[i], c) != bit(rows[r], c)),
    ensures
        independent(rows.update(i, sum)),
{
    let n = rows.len() as int;
    let added = rows.update(i, sum);
    assert forall|sel: Seq<bool>|
        sel.len() == added.len() && #[trigger] picks_some(sel) implies sum_is_nonzero(
        added,
        sel,
    ) by {
        let back = sel.update(r, sel[r] != sel[i]);
        let witness = choose|w: int| 0 <= w < sel.len() && #[trigger] sel[w];
        if sel[i] {
            assert(back[i]);
        } else {
            assert(back[witness]);
        }
        assert(picks_some(back));
        assert(sum_is_nonzero(rows, back));
        let c = choose|c: nat| #[trigger] sum_bit(rows, back, c, n);
        lemma_sum_without_two(rows, back, c, i, r);
        lemma_sum_without_two(added, sel, c, i, r);
        lemma_sum_depends_on_picked(
            rows,
            back.update(i, false).update(r, false),
            added,
            sel.update(i, false).update(r, false),
            c,
            n,
        );
        assert(bit(sum, c) == (bit(rows[i], c) != bit(rows[r], c)));
        assert(sum_bit(added, sel, c, n));
    }
}

/// The sum of rows picked from the unit rows `2^0, 2^1, ...` has the bit
/// `c` exactly when row `c` is picked.
pub proof fn lemma_sum_of_units(rows: Seq<int>, sel: Seq<bool>, c: nat, k: int)
    requires
        0 <= k <= rows.len(),
        sel.len() == rows.len(),
        forall|j: int| 0 <= j < rows.len() ==> #[trigger] rows[j] == vstd::arithmetic::power2::pow2(
            j as nat,
        ),
    ensures
        sum_bit(rows, sel, c, k) == (c < k && sel[c as int]),
    decreases k,
{
    if k > 0 {
        lemma_sum_of_units(rows, sel, c, k - 1);
        crate::bits::lemma_bit_of_pow2((k - 1) as nat, c);
    }
}

/// The unit rows `2^0, 2^1, ...` are independent.
pub proof fn lemma_units_independent(rows: Seq<int>)
    requires
        forall|j: int| 0 <= j < rows.len() ==> #[trigger] rows[j] == vstd::arithmetic::power2::pow2(
            j as nat,
        ),
    ensures
        independent(rows),
{
    assert forall|sel: Seq<bool>|
        sel.len() == rows.len() && #[trigger] picks_some(sel) implies sum_is_nonzero(
        rows,
        sel,
    ) by {
        let witness = choose|w: int| 0 <= w < sel.len() && #[trigger] sel[w];
        lemma_sum_of_units(rows, sel, witness as nat, rows.len() as int);
        assert(sum_bit(rows, sel, witness as nat, rows.len() as int));
    }
}

/// A row of an independent family is not zero.
pub proof fn lemma_independent_row_nonzero(rows: Seq<int>, r: int)
    requires
        independent(rows),
        0 <= r < rows.len(),
    ensures
        rows[r] != 0,
{
    let n = rows.len() as int;
    let only = Seq::new(rows.len(), |j: int| j == r);
    assert(only[r]);
    assert(picks_some(only));
    assert(sum_is_nonzero(rows, only));
    let c = choose|c: nat| #[trigger] sum_bit(rows, only, c, n);
    lemma_sum_without(rows, only, c, n, r);
    let none = only.update(r, false);
    lemma_sum_of_none(rows, none, c, n);
    assert(bit(rows[r], c));
    if rows[r] == 0 {
        crate::bits::lemma_zero_has_no_bit(c);
    }
}

/// The sum of no rows is zero.
pub proof fn lemma_sum_of_none(rows: Seq<int>, sel: Seq<bool>, c: nat, k: int)
    requires
        0 <= k <= rows.len(),
        sel.len() == rows.len(),
        forall|j: int| 0 <= j < k ==> !sel[j],
    ensures
        !sum_bit(rows, sel, c, k),
    decreases k,
{
    if k > 0 {
        lemma_sum_of_none(rows, sel, c, k - 1);
    }
}

/// The sum picked by the exclusive or of two masks is the sum of the two
/// sums.
pub proof fn lemma_combo_of_xor(rows: Seq<int>, h1: int, h2: int, hx: int, c: nat, k: int)
    requires
        0 <= k <= rows.len(),
        forall|j: nat| #[trigger] bit(hx, j) == (bit(h1, j) != bit(h2, j)),
    ensures
        sum_bit(rows, picks(hx, rows.len()), c, k) == (sum_bit(rows, picks(h1, rows.len()), c, k)
            != sum_bit(rows, picks(h2, rows.len()), c, k)),
    decreases k,
{
    if k > 0 {
        lemma_combo_of_xor(rows, h1, h2, hx, c, k - 1);
        assert(bit(hx, (k - 1) as nat) == (bit(h1, (k - 1) as nat) != bit(h2, (k - 1) as nat)));
    }
}

/// The sum picked by the unit mask `2^j` is row `j`.
pub proof fn lemma_combo_of_unit(rows: Seq<int>, j: nat, c: nat, k: int)
    requires
        0 <= k <= rows.len(),
        j < rows.len(),
    ensures
        sum_bit(rows, picks(vstd::arithmetic::power2::pow2(j) as int, rows.len()), c, k) == (j < k
            && bit(rows[j as int], c)),
    decreases k,
{
    if k > 0 {
        lemma_combo_of_unit(rows, j, c, k - 1);
        crate::bits::lemma_bit_of_pow2(j, (k - 1) as nat);
    }
}

/// The selection that picks a row when exactly one of two selections picks
/// it: the sum of the two selections.
pub open spec fn xor_sel(sel1: Seq<bool>, sel2: Seq<bool>) -> Seq<bool> {
    Seq::new(sel1.len(), |q: int| sel1[q] != sel2[q])
}

/// The sum picked by the sum of two selections is the sum of the two sums.
pub proof fn lemma_sum_of_xor_sel(rows: Seq<int>, sel1: Seq<bool>, sel2: Seq<bool>, c: nat, k: int)
    requires
        0 <= k <= rows.len(),
        sel1.len() == rows.len(),
        sel2.len() == rows.len(),
    ensures
        sum_bit(rows, xor_sel(sel1, sel2), c, k) == (sum_bit(rows, sel1, c, k) != sum_bit(
            rows,
            sel2,
            c,
            k,
        )),
    decreases k,
{
    if k > 0 {
        lemma_sum_of_xor_sel(rows, sel1, sel2, c, k - 1);
    }
}

/// A sum to which no picked row adds a one in column `c` is zero there.
pub proof fn lemma_sum_without_ones(rows: Seq<int>, sel: Seq<bool>, c: nat, k: int)
    requires
        0 <= k <= rows.len(),
        sel.len() == rows.len(),
        forall|q: int| 0 <= q < k ==> !#[trigger] term(rows, sel, c, q),
    ensures
        !sum_bit(rows, sel, c, k),
    decreases k,
{
    if k > 0 {
        lemma_sum_without_ones(rows, sel, c, k - 1);
        assert(!term(rows, sel, c, k - 1));
    }
}

/// The rows that `sel` picks add up to the unit row `2^j`.
pub open spec fn sums_to_unit(rows: Seq<int>, sel: Seq<bool>, j: int) -> bool {
    forall|c: nat| #[trigger] sum_bit(rows, sel, c, rows.len() as int) == (c == j)
}

/// Some of the rows add up to the unit row `2^j`.
pub open spec fn reaches_unit(rows: Seq<int>, j: int) -> bool {
    exists|sel: Seq<bool>| sel.len() == rows.len() && #[trigger] sums_to_unit(rows, sel, j)
}

/// Every unit row `2^j`, for `j` below the number of rows, is a sum of rows:
/// the rows span the whole space.
pub open spec fn spans_units(rows: Seq<int>) -> bool {
    forall|j: int| 0 <= j < rows.len() ==> #[trigger] reaches_unit(rows, j)
}

/// The unit rows span the whole space.
pub proof fn lemma_units_span(rows: Seq<int>)
    requires
        forall|j: int| 0 <= j < rows.len() ==> #[trigger] rows[j] == vstd::arithmetic::power2::pow2(
            j as nat,
        ),
    ensures
        spans_units(rows),
{
    assert forall|j: int| 0 <= j < rows.len() implies #[trigger] reaches_unit(rows, j) by {
        let only = Seq::new(rows.len(), |q: int| q == j);
        assert forall|c: nat| #[trigger] sum_bit(rows, only, c, rows.len() as int) == (c == j) by {
            lemma_sum_of_units(rows, only, c, rows.len() as int);
        }
        assert(sums_to_unit(rows, only, j));
    }
}

/// Exchanging two rows keeps the rows spanning.
pub proof fn lemma_swap_keeps_span(rows: Seq<int>, i: int, r: int)
    requires
        spans_units(rows),
        0 <= i < rows.len(),
        0 <= r < rows.len(),
    ensures
        spans_units(rows.update(i, rows[r]).update(r, rows[i])),
{
    let n = rows.len() as int;
    let swapped = rows.update(i, rows[r]).update(r, rows[i]);
    if i == r {
        assert(swapped =~= rows);
    } else {
        assert forall|j: int| 0 <= j < swapped.len() implies #[trigger] reaches_unit(swapped, j) by {
            assert(reaches_unit(rows, j));
            let sel = choose|sel: Seq<bool>|
                sel.len() == rows.len() && #[trigger] sums_to_unit(rows, sel, j);
            let moved = sel.update(i, sel[r]).update(r, sel[i]);
            assert forall|c: nat| #[trigger] sum_bit(swapped, moved, c, n) == (c == j) by {
                assert(sum_bit(rows, sel, c, n) == (c == j));
                lemma_sum_without_two(rows, sel, c, i, r);
                lemma_sum_without_two(swapped, moved, c, i, r);
                lemma_sum_depends_on_picked(
                    rows,
                    sel.update(i, false).update(r, false),
                    swapped,
                    moved.update(i, false).update(r, false),
                    c,
                    n,
                );
            }
            assert(sums_to_unit(swapped, moved, j));
        }
    }
}

/// Adding row `r` to row `i` keeps the rows spanning.
pub proof fn lemma_add_keeps_span(rows: Seq<int>, i: int, r: int, sum: int)
    requires
        spans_units(rows),
        0 <= i < rows.len(),
        0 <= r < rows.len(),
        i != r,
        forall|c: nat| #[trigger] bit(sum, c) == (bit(rows[i], c) != bit(rows[r], c)),
    ensures
        spans_units(rows.update(i, sum)),
{
    let n = rows.len() as int;
    let added = rows.update(i, sum);
    assert forall|j: int| 0 <= j < added.len() implies #[trigger] reaches_unit(added, j) by {
        assert(reaches_unit(rows, j));
        let sel = choose|sel: Seq<bool>|
            sel.len() == rows.len() && #[trigger] sums_to_unit(rows, sel, j);
        let next = sel.update(r, sel[r] != sel[i]);
        assert forall|c: nat| #[trigger] sum_bit(added, next, c, n) == (c == j) by {
            assert(sum_bit(rows, sel, c, n) == (c == j));
            lemma_sum_without_two(rows, sel, c, i, r);
            lemma_sum_without_two(added, next, c, i, r);
            lemma_sum_depends_on_picked(
                rows,
                sel.update(i, false).update(r, false),
                added,
                next.update(i, false).update(r, false),
                c,
                n,
            );
            assert(bit(sum, c) == (bit(rows[i], c) != bit(rows[r], c)));
        }
        assert(sums_to_unit(added, next, j));
    }
}

/// With rows that span the whole space, every row of zeros and ones is a sum
/// of rows: the result picks rows that add up to the first `k` entries of
/// `target`.
pub proof fn lemma_span_reaches(rows: Seq<int>, target: Seq<bool>, k: int) -> (sel: Seq<bool>)
    requires
        spans_units(rows),
        target.len() == rows.len(),
        0 <= k <= rows.len(),
    ensures
        sel.len() == rows.len(),
        forall|c: nat| #[trigger]
            sum_bit(rows, sel, c, rows.len() as int) == (c < k && target[c as int]),
    decreases k,
{
    let n = rows.len() as int;
    if k == 0 {
        let none = Seq::new(rows.len(), |q: int| false);
        assert forall|c: nat| !#[trigger] sum_bit(rows, none, c, n) by {
            lemma_sum_of_none(rows, none, c, n);
        }
        none
    } else {
        let before = lemma_span_reaches(rows, target, k - 1);
        if target[k - 1] {
            assert(reaches_unit(rows, k - 1));
            let unit = choose|sel: Seq<bool>|
                sel.len() == rows.len() && #[trigger] sums_to_unit(rows, sel, k - 1);
            let both = xor_sel(before, unit);
            assert forall|c: nat| #[trigger] sum_bit(rows, both, c, n) == (c < k && target[c as int]) by {
                lemma_sum_of_xor_sel(rows, before, unit, c, n);
                assert(sum_bit(rows, unit, c, n) == (c == k - 1));
                assert(sum_bit(rows, before, c, n) == (c < k - 1 && target[c as int]));
            }
            both
        } else {
            assert forall|c: nat| #[trigger] sum_bit(rows, before, c, n) == (c < k
                && target[c as int]) by {
                assert(sum_bit(rows, before, c, n) == (c < k - 1 && target[c as int]));
            }
            before
        }
    }
}

/// The sums of the first `k` picked rows of `h`, column by column, as a
/// selection among `n` rows.
pub open spec fn column_sums(h: Seq<int>, sel: Seq<bool>, n: nat, k: int) -> Seq<bool> {
    Seq::new(n, |j: int| sum_bit(h, sel, j as nat, k))
}

/// If every row of `m` is the sum of the rows of `base` that its history row
/// in `h` picks, then a sum of rows of `m` is the sum of the rows of `base`
/// that the same sum of history rows picks.
pub proof fn lemma_sum_of_recorded(
    m: Seq<int>,
    h: Seq<int>,
    base: Seq<int>,
    sel: Seq<bool>,
    c: nat,
    k: int,
)
    requires
        m.len() == h.len(),
        sel.len() == m.len(),
        0 <= k <= m.len(),
        forall|q: int| 0 <= q < m.len() ==> #[trigger] bit(m[q], c) == combo_bit(base, h[q], c),
    ensures
        sum_bit(m, sel, c, k) == sum_bit(
            base,
            column_sums(h, sel, base.len(), k),
            c,
            base.len() as int,
        ),
    decreases k,
{
    let n = base.len();
    if k == 0 {
        lemma_sum_of_none(base, column_sums(h, sel, n, 0), c, n as int);
    } else {
        lemma_sum_of_recorded(m, h, base, sel, c, k - 1);
        let before = column_sums(h, sel, n, k - 1);
        let after = column_sums(h, sel, n, k);
        if sel[k - 1] {
            let row = picks(h[k - 1], n);
            assert(after =~= xor_sel(before, row));
            lemma_sum_of_xor_sel(base, before, row, c, n as int);
            assert(bit(m[k - 1], c) == combo_bit(base, h[k - 1], c));
        } else {
            assert(after =~= before);
        }
    }
}

} // verus!
