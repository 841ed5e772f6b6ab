//! From relations to a factor: the exponent-parity matrix, its reduction to
//! row-echelon form over GF(2), and the greatest common divisor that each
//! dependency yields.

use vstd::prelude::*;
use vstd::arithmetic::power2::pow2;
use rug::Integer;
use crate::arith::{abs, bit};
use crate::big::{copy, equal, from_u64, less, minus, plus, shift_left, test_bit, val, values, xor};
use crate::bits::{
    lemma_bit_of_pow2, lemma_bit_of_sum, lemma_no_bit_is_zero, lemma_xor_value_bits,
    lemma_xor_value_is_unique, lemma_zero_has_no_bit, xor_value,
};
use crate::extractor::{differences, extract_factor, is_first_split, optional_value};
use crate::gf2::{
    column_sums, combo_bit, independent, lemma_add_keeps_independent, lemma_add_keeps_span,
    lemma_combo_of_unit, lemma_combo_of_xor, lemma_independent_row_nonzero, lemma_span_reaches,
    lemma_sum_of_none, lemma_sum_of_recorded, lemma_sum_without, lemma_sum_without_ones,
    lemma_swap_keeps_independent, lemma_swap_keeps_span, lemma_units_independent, lemma_units_span,
    non_negative, picks, picks_some, spans_units, sum_bit, term,
};
use crate::primes::{distinct_primes, lemma_trial_division_finds_exponent};
use crate::relation::{triple, triples, Relation, Triple};
use crate::sieve::primes_in_range;
use crate::smooth::{multiplicity, residue, strip_counting};

verus! {

/// No row has a bit at column `cols` or beyond.
pub open spec fn narrow(rows: Seq<int>, cols: nat) -> bool {
    forall|r: int, c: nat| 0 <= r < rows.len() && c >= cols ==> !#[trigger] bit(rows[r], c)
}

/// Each row of `m` is the sum of the rows of `base` that the history row of
/// the same index picks.
pub open spec fn recorded(m: Seq<int>, h: Seq<int>, base: Seq<int>) -> bool {
    &&& m.len() == h.len()
    &&& forall|r: int, c: nat|
        0 <= r < m.len() ==> #[trigger] bit(m[r], c) == combo_bit(base, h[r], c)
}

/// What every step of the reduction keeps: rows and history rows are
/// non-negative and as many, the rows fit in `cols` columns and the history
/// rows in as many columns as there are rows, each row is the sum that its
/// history row records, and the history rows are independent and span the
/// whole space.
pub open spec fn table_ok(m: Seq<int>, h: Seq<int>, base: Seq<int>, cols: nat) -> bool {
    &&& m.len() == h.len()
    &&& non_negative(m)
    &&& non_negative(h)
    &&& narrow(m, cols)
    &&& narrow(h, h.len())
    &&& recorded(m, h, base)
    &&& independent(h)
    &&& spans_units(h)
}

/// The first `pivots.len()` rows are pivot rows: row `q` has a one in the
/// column `pivots[q]`, where every other row has a zero. The pivot columns
/// increase and lie below `lead`. The rows after them are zero in every
/// column below `lead`.
pub open spec fn echelon(m: Seq<int>, pivots: Seq<nat>, lead: nat) -> bool {
    &&& pivots.len() <= m.len()
    &&& pivots.len() <= lead
    &&& forall|q: int| 0 <= q < pivots.len() ==> q <= #[trigger] pivots[q] < lead
    &&& forall|q: int| 0 <= q < pivots.len() ==> bit(#[trigger] m[q], pivots[q])
    &&& forall|q: int, q2: int|
        0 <= q < pivots.len() && 0 <= q2 < m.len() && q2 != q ==> !#[trigger] bit(
            m[q2],
            pivots[q],
        )
    &&& forall|q: int, c: nat|
        pivots.len() <= q < m.len() && c < lead ==> !#[trigger] bit(m[q], c)
}

/// The rows with the rows `i` and `r` exchanged.
pub open spec fn swapped(rows: Seq<int>, i: int, r: int) -> Seq<int> {
    rows.update(i, rows[r]).update(r, rows[i])
}

/// The first row at or after `from` of the matrix `m` with a one in column
/// `lead`, or the number of rows when there is none.
pub open spec fn first_with_bit(m: Seq<int>, from: int, lead: nat) -> int
    decreases m.len() - from,
{
    if from < 0 || from >= m.len() {
        m.len() as int
    } else if bit(m[from], lead) {
        from
    } else {
        first_with_bit(m, from + 1, lead)
    }
}

/// The rows after row `r` has been added to each of the first `upto` rows
/// but itself that has a one in column `lead` of the matrix `m`. The rows are
/// those of the matrix or those of its history.
pub open spec fn cleared_to(rows: Seq<int>, m: Seq<int>, r: int, lead: nat, upto: int) -> Seq<
    int,
> {
    Seq::new(
        rows.len(),
        |q: int|
            if q < upto && q != r && bit(m[q], lead) {
                xor_value(rows[q], rows[r])
            } else {
                rows[q]
            },
    )
}

/// The rows after column `lead` of the matrix `m` has been cleared with row
/// `r`: row `r` has been added to every other row with a one there.
pub open spec fn cleared(rows: Seq<int>, m: Seq<int>, r: int, lead: nat) -> Seq<int> {
    cleared_to(rows, m, r, lead, rows.len() as int)
}

/// The matrix `m` and its history `h` after the reduction has gone on from
/// the column `lead`, with `rank` pivot rows found so far. In each column the
/// first row behind the pivot rows with a one there is exchanged with the
/// row just behind them and clears the column; a column without such a row
/// is passed over.
pub open spec fn reduced(m: Seq<int>, h: Seq<int>, rank: int, lead: nat, cols: nat) -> (
    Seq<int>,
    Seq<int>,
)
    decreases cols - lead,
{
    if lead >= cols || rank < 0 || rank >= m.len() {
        (m, h)
    } else {
        let found = first_with_bit(m, rank, lead);
        if found < m.len() {
            let m1 = swapped(m, found, rank);
            let h1 = swapped(h, found, rank);
            reduced(
                cleared(m1, m1, rank, lead),
                cleared(h1, m1, rank, lead),
                rank + 1,
                lead + 1,
                cols,
            )
        } else {
            reduced(m, h, rank, lead + 1, cols)
        }
    }
}

/// A row with a one in column `lead`, before which no row from `from` on has
/// one, is the first such row.
proof fn lemma_first_with_bit(m: Seq<int>, from: int, lead: nat, i: int)
    requires
        0 <= from <= i <= m.len(),
        forall|q: int| from <= q < i ==> !bit(#[trigger] m[q], lead),
        i < m.len() ==> bit(m[i], lead),
    ensures
        first_with_bit(m, from, lead) == i,
    decreases i - from,
{
    if from < i {
        assert(!bit(m[from], lead));
        lemma_first_with_bit(m, from + 1, lead, i);
    }
}

/// Exchanges the rows `i` and `r`.
fn swap_rows(rows: &mut Vec<Integer>, i: usize, r: usize)
    requires
        i < old(rows).len(),
        r < old(rows).len(),
    ensures
        values(final(rows)@) == values(old(rows)@).update(i as int, val(old(rows)[r as int])).update(
            r as int,
            val(old(rows)[i as int]),
        ),
{
    let a = copy(&rows[i]);
    let b = copy(&rows[r]);
    rows.set(i, b);
    rows.set(r, a);
    proof {
        assert(values(rows@) =~= values(old(rows)@).update(
            i as int,
            val(old(rows)[r as int]),
        ).update(r as int, val(old(rows)[i as int])));
    }
}

/// Adds the row `source` to the row `target`.
fn add_row(rows: &mut Vec<Integer>, target: usize, source: usize)
    requires
        target < old(rows).len(),
        source < old(rows).len(),
        non_negative(values(old(rows)@)),
    ensures
        final(rows).len() == old(rows).len(),
        val(final(rows)[target as int]) >= 0,
        forall|c: nat| #[trigger]
            bit(val(final(rows)[target as int]), c) == (bit(val(old(rows)[target as int]), c)
                != bit(val(old(rows)[source as int]), c)),
        val(final(rows)[target as int]) == xor_value(
            val(old(rows)[target as int]),
            val(old(rows)[source as int]),
        ),
        values(final(rows)@) == values(old(rows)@).update(
            target as int,
            val(final(rows)[target as int]),
        ),
{
    assert(values(rows@)[target as int] >= 0);
    assert(values(rows@)[source as int] >= 0);
    let sum = xor(&rows[target], &rows[source]);
    proof {
        lemma_xor_value_is_unique(val(rows[target as int]), val(rows[source as int]), val(sum));
    }
    rows.set(target, sum);
    proof {
        assert(values(rows@) =~= values(old(rows)@).update(
            target as int,
            val(rows[target as int]),
        ));
    }
}

/// Exchanges the rows `i` and `r` of the matrix and of its history.
fn swap_both(
    m: &mut Vec<Integer>,
    h: &mut Vec<Integer>,
    i: usize,
    r: usize,
    Ghost(base): Ghost<Seq<int>>,
    Ghost(cols): Ghost<nat>,
)
    requires
        i < old(m).len(),
        r < old(m).len(),
        table_ok(values(old(m)@), values(old(h)@), base, cols),
    ensures
        table_ok(values(final(m)@), values(final(h)@), base, cols),
        values(final(m)@) == values(old(m)@).update(i as int, values(old(m)@)[r as int]).update(
            r as int,
            values(old(m)@)[i as int],
        ),
        values(final(m)@) == swapped(values(old(m)@), i as int, r as int),
        values(final(h)@) == swapped(values(old(h)@), i as int, r as int),
{
    let ghost m0 = values(m@);
    let ghost h0 = values(h@);
    swap_rows(m, i, r);
    swap_rows(h, i, r);
    proof {
        let m1 = values(m@);
        let h1 = values(h@);
        assert(m0[r as int] == val(old(m)[r as int]));
        assert(m0[i as int] == val(old(m)[i as int]));
        assert(h0[r as int] == val(old(h)[r as int]));
        assert(h0[i as int] == val(old(h)[i as int]));
        lemma_swap_keeps_independent(h0, i as int, r as int);
        lemma_swap_keeps_span(h0, i as int, r as int);
        assert forall|q: int| 0 <= q < m1.len() implies #[trigger] m1[q] >= 0 by {
            assert(m0[q] >= 0 && m0[i as int] >= 0 && m0[r as int] >= 0);
        }
        assert forall|q: int| 0 <= q < h1.len() implies #[trigger] h1[q] >= 0 by {
            assert(h0[q] >= 0 && h0[i as int] >= 0 && h0[r as int] >= 0);
        }
        assert forall|q: int, c: nat| 0 <= q < m1.len() && c >= cols implies !#[trigger] bit(
            m1[q],
            c,
        ) by {
            assert(!bit(m0[q], c) && !bit(m0[i as int], c) && !bit(m0[r as int], c));
        }
        assert forall|q: int, c: nat| 0 <= q < h1.len() && c >= h1.len() implies !#[trigger] bit(
            h1[q],
            c,
        ) by {
            assert(!bit(h0[q], c) && !bit(h0[i as int], c) && !bit(h0[r as int], c));
        }
        assert forall|q: int, c: nat| 0 <= q < m1.len() implies #[trigger] bit(m1[q], c)
            == combo_bit(base, h1[q], c) by {
            assert(bit(m0[q], c) == combo_bit(base, h0[q], c));
            assert(bit(m0[i as int], c) == combo_bit(base, h0[i as int], c));
            assert(bit(m0[r as int], c) == combo_bit(base, h0[r as int], c));
        }
    }
}

/// Adds the row `source` to the row `target`, in the matrix and in its
/// history.
fn add_both(
    m: &mut Vec<Integer>,
    h: &mut Vec<Integer>,
    target: usize,
    source: usize,
    Ghost(base): Ghost<Seq<int>>,
    Ghost(cols): Ghost<nat>,
)
    requires
        target < old(m).len(),
        source < old(m).len(),
        target != source,
        table_ok(values(old(m)@), values(old(h)@), base, cols),
    ensures
        table_ok(values(final(m)@), values(final(h)@), base, cols),
        forall|c: nat| #[trigger]
            bit(values(final(m)@)[target as int], c) == (bit(values(old(m)@)[target as int], c)
                != bit(values(old(m)@)[source as int], c)),
        values(final(m)@) == values(old(m)@).update(
            target as int,
            values(final(m)@)[target as int],
        ),
        values(final(m)@) == values(old(m)@).update(
            target as int,
            xor_value(values(old(m)@)[target as int], values(old(m)@)[source as int]),
        ),
        values(final(h)@) == values(old(h)@).update(
            target as int,
            xor_value(values(old(h)@)[target as int], values(old(h)@)[source as int]),
        ),
{
    let ghost m0 = values(m@);
    let ghost h0 = values(h@);
    add_row(m, target, source);
    add_row(h, target, source);
    proof {
        let m1 = values(m@);
        let h1 = values(h@);
        let t = target as int;
        let s = source as int;
        assert(m1[t] == val(m[t]));
        assert(h1[t] == val(h[t]));
        assert(m0[t] == val(old(m)[t]) && m0[s] == val(old(m)[s]));
        assert(h0[t] == val(old(h)[t]) && h0[s] == val(old(h)[s]));
        lemma_add_keeps_independent(h0, t, s, h1[t]);
        lemma_add_keeps_span(h0, t, s, h1[t]);
        assert forall|q: int| 0 <= q < m1.len() implies #[trigger] m1[q] >= 0 by {
            assert(m0[q] >= 0);
        }
        assert forall|q: int| 0 <= q < h1.len() implies #[trigger] h1[q] >= 0 by {
            assert(h0[q] >= 0);
        }
        assert forall|q: int, c: nat| 0 <= q < m1.len() && c >= cols implies !#[trigger] bit(
            m1[q],
            c,
        ) by {
            assert(!bit(m0[q], c) && !bit(m0[t], c) && !bit(m0[s], c));
            assert(bit(m1[t], c) == (bit(m0[t], c) != bit(m0[s], c)));
        }
        assert forall|q: int, c: nat| 0 <= q < h1.len() && c >= h1.len() implies !#[trigger] bit(
            h1[q],
            c,
        ) by {
            assert(!bit(h0[q], c) && !bit(h0[t], c) && !bit(h0[s], c));
            assert(bit(h1[t], c) == (bit(h0[t], c) != bit(h0[s], c)));
        }
        assert forall|q: int, c: nat| 0 <= q < m1.len() implies #[trigger] bit(m1[q], c)
            == combo_bit(base, h1[q], c) by {
            assert(bit(m0[q], c) == combo_bit(base, h0[q], c));
            if q == t {
                assert(bit(m0[s], c) == combo_bit(base, h0[s], c));
                assert(bit(m1[t], c) == (bit(m0[t], c) != bit(m0[s], c)));
                lemma_combo_of_xor(base, h0[t], h0[s], h1[t], c, base.len() as int);
            }
        }
    }
}

/// The first row at or after `from` with a one in column `lead`, or the
/// number of rows when there is none.
fn find_pivot(m: &Vec<Integer>, from: usize, lead: u32) -> (i: usize)
    requires
        from <= m.len(),
        non_negative(values(m@)),
    ensures
        from <= i <= m.len(),
        forall|q: int| from <= q < i ==> !bit(#[trigger] values(m@)[q], lead as nat),
        i < m.len() ==> bit(values(m@)[i as int], lead as nat),
        i == first_with_bit(values(m@), from as int, lead as nat),
{
    let mut i = from;
    while i < m.len()
        invariant
            from <= i <= m.len(),
            non_negative(values(m@)),
            forall|q: int| from <= q < i ==> !bit(#[trigger] values(m@)[q], lead as nat),
        decreases m.len() - i,
    {
        assert(values(m@)[i as int] >= 0);
        if test_bit(&m[i], lead) {
            proof {
                lemma_first_with_bit(values(m@), from as int, lead as nat, i as int);
            }
            return i;
        }
        i = i + 1;
    }
    proof {
        lemma_first_with_bit(values(m@), from as int, lead as nat, i as int);
    }
    i
}

/// Clears column `lead` in every row but row `r`, by adding row `r` to each
/// row that has a one there. Row `r` becomes the next pivot row.
fn eliminate(
    m: &mut Vec<Integer>,
    h: &mut Vec<Integer>,
    r: usize,
    lead: u32,
    Ghost(base): Ghost<Seq<int>>,
    Ghost(cols): Ghost<nat>,
    Ghost(pivots): Ghost<Seq<nat>>,
)
    requires
        r < old(m).len(),
        lead < cols,
        pivots.len() == r,
        table_ok(values(old(m)@), values(old(h)@), base, cols),
        echelon(values(old(m)@), pivots, lead as nat),
        bit(values(old(m)@)[r as int], lead as nat),
    ensures
        final(m).len() == old(m).len(),
        table_ok(values(final(m)@), values(final(h)@), base, cols),
        echelon(values(final(m)@), pivots.push(lead as nat), (lead + 1) as nat),
        values(final(m)@) == cleared(values(old(m)@), values(old(m)@), r as int, lead as nat),
        values(final(h)@) == cleared(values(old(h)@), values(old(m)@), r as int, lead as nat),
{
    let rows = m.len();
    let mut index: usize = 0;
    let ghost m0 = values(m@);
    let ghost h0 = values(h@);
    proof {
        assert(values(m@) =~= cleared_to(m0, m0, r as int, lead as nat, 0));
        assert(values(h@) =~= cleared_to(h0, m0, r as int, lead as nat, 0));
    }
    while index < rows
        invariant
            index <= rows,
            rows == m.len(),
            rows == m0.len(),
            rows == h0.len(),
            values(m@) == cleared_to(m0, m0, r as int, lead as nat, index as int),
            values(h@) == cleared_to(h0, m0, r as int, lead as nat, index as int),
            r < rows,
            pivots.len() == r,
            table_ok(values(m@), values(h@), base, cols),
            echelon(values(m@), pivots, lead as nat),
            bit(values(m@)[r as int], lead as nat),
            forall|q: int| 0 <= q < index && q != r ==> !bit(#[trigger] values(m@)[q], lead as nat),
        decreases rows - index,
    {
        assert(values(m@)[index as int] >= 0);
        let ghost before = values(m@);
        let ghost before_h = values(h@);
        if index != r && test_bit(&m[index], lead) {
            add_both(m, h, index, r, Ghost(base), Ghost(cols));
            proof {
                let after = values(m@);
                assert(after.len() == before.len());
                let t = index as int;
                assert(before[t] == m0[t] && before[r as int] == m0[r as int]);
                assert(before_h[t] == h0[t] && before_h[r as int] == h0[r as int]);
                assert(after =~= cleared_to(m0, m0, r as int, lead as nat, index + 1));
                assert(values(h@) =~= cleared_to(h0, m0, r as int, lead as nat, index + 1));
                assert forall|q: int| 0 <= q < pivots.len() implies bit(
                    #[trigger] after[q],
                    pivots[q],
                ) by {
                    assert(bit(before[q], pivots[q]));
                    assert(!bit(before[r as int], pivots[q]));
                    assert(bit(after[t], pivots[q]) == (bit(before[t], pivots[q]) != bit(
                        before[r as int],
                        pivots[q],
                    )));
                }
                assert forall|q: int, q2: int|
                    0 <= q < pivots.len() && 0 <= q2 < after.len() && q2 != q implies !#[trigger] bit(
                    after[q2],
                    pivots[q],
                ) by {
                    assert(!bit(before[q2], pivots[q]));
                    assert(!bit(before[r as int], pivots[q]));
                    assert(bit(after[t], pivots[q]) == (bit(before[t], pivots[q]) != bit(
                        before[r as int],
                        pivots[q],
                    )));
                }
                assert forall|q: int, c: nat|
                    pivots.len() <= q < after.len() && c < lead implies !#[trigger] bit(
                    after[q],
                    c,
                ) by {
                    assert(!bit(before[q], c));
                    assert(!bit(before[r as int], c));
                    assert(bit(after[t], c) == (bit(before[t], c) != bit(before[r as int], c)));
                }
                assert(bit(after[t], lead as nat) == (bit(before[t], lead as nat) != bit(
                    before[r as int],
                    lead as nat,
                )));
                assert forall|q: int| 0 <= q < index + 1 && q != r implies !bit(
                    #[trigger] after[q],
                    lead as nat,
                ) by {
                    if q != t {
                        assert(!bit(before[q], lead as nat));
                    }
                }
            }
        } else {
            proof {
                assert(before[index as int] == m0[index as int]);
                assert(before =~= cleared_to(m0, m0, r as int, lead as nat, index + 1));
                assert(before_h =~= cleared_to(h0, m0, r as int, lead as nat, index + 1));
            }
        }
        index = index + 1;
    }
    proof {
        let after = values(m@);
        let next = pivots.push(lead as nat);
        assert forall|q: int| 0 <= q < next.len() implies q <= #[trigger] next[q] < lead + 1 by {
            if q < pivots.len() {
                assert(q <= pivots[q] < lead);
            }
        }
        assert forall|q: int| 0 <= q < next.len() implies bit(#[trigger] after[q], next[q]) by {
            if q < pivots.len() {
                assert(bit(after[q], pivots[q]));
            }
        }
        assert forall|q: int, q2: int|
            0 <= q < next.len() && 0 <= q2 < after.len() && q2 != q implies !#[trigger] bit(
            after[q2],
            next[q],
        ) by {
            if q < pivots.len() {
                assert(!bit(after[q2], pivots[q]));
            } else {
                assert(!bit(after[q2], lead as nat));
            }
        }
        assert forall|q: int, c: nat|
            next.len() <= q < after.len() && c < lead + 1 implies !#[trigger] bit(after[q], c) by {
            if c < lead {
                assert(!bit(after[q], c));
            } else {
                assert(!bit(after[q], lead as nat));
            }
        }
    }
}

/// The pivot columns increase from row to row, and no pivot row has a one
/// to the left of its pivot column.
pub open spec fn staircase(m: Seq<int>, pivots: Seq<nat>) -> bool {
    &&& pivots.len() <= m.len()
    &&& forall|q: int, q2: int|
        0 <= q < q2 < pivots.len() ==> #[trigger] pivots[q] < #[trigger] pivots[q2]
    &&& forall|q: int, c: nat|
        0 <= q < pivots.len() && c < pivots[q] ==> !#[trigger] bit(m[q], c)
}

/// Exchanging two rows that are not pivot rows keeps the staircase.
proof fn lemma_swap_keeps_staircase(m: Seq<int>, pivots: Seq<nat>, i: int, r: int)
    requires
        staircase(m, pivots),
        pivots.len() <= r < m.len(),
        pivots.len() <= i < m.len(),
    ensures
        staircase(swapped(m, i, r), pivots),
{
    let after = swapped(m, i, r);
    assert forall|q: int, c: nat| 0 <= q < pivots.len() && c < pivots[q] implies !#[trigger] bit(
        after[q],
        c,
    ) by {
        assert(after[q] == m[q]);
        assert(!bit(m[q], c));
    }
}

/// Clearing the column `lead` with the row behind the pivot rows keeps the
/// staircase and adds that row to it.
proof fn lemma_cleared_keeps_staircase(m: Seq<int>, pivots: Seq<nat>, lead: nat)
    requires
        non_negative(m),
        echelon(m, pivots, lead),
        staircase(m, pivots),
        pivots.len() < m.len(),
    ensures
        staircase(cleared(m, m, pivots.len() as int, lead), pivots.push(lead)),
{
    let r = pivots.len() as int;
    let after = cleared(m, m, r, lead);
    let next = pivots.push(lead);
    assert forall|q: int, q2: int| 0 <= q < q2 < next.len() implies #[trigger] next[q]
        < #[trigger] next[q2] by {
        if q2 < pivots.len() {
            assert(pivots[q] < pivots[q2]);
        } else {
            assert(q <= pivots[q] < lead);
        }
    }
    assert forall|q: int, c: nat| 0 <= q < next.len() && c < next[q] implies !#[trigger] bit(
        after[q],
        c,
    ) by {
        if q < pivots.len() {
            assert(q <= pivots[q] < lead);
            assert(!bit(m[q], c));
            assert(!bit(m[r], c));
            assert(m[q] >= 0 && m[r] >= 0);
            lemma_xor_value_bits(m[q], m[r], c);
        } else {
            assert(after[q] == m[r]);
            assert(!bit(m[r], c));
        }
    }
}

/// Exchanging two rows that are not pivot rows keeps the echelon shape.
proof fn lemma_swap_keeps_echelon(m: Seq<int>, pivots: Seq<nat>, lead: nat, i: int, r: int)
    requires
        echelon(m, pivots, lead),
        pivots.len() <= i < m.len(),
        pivots.len() <= r < m.len(),
    ensures
        echelon(m.update(i, m[r]).update(r, m[i]), pivots, lead),
{
    let swapped = m.update(i, m[r]).update(r, m[i]);
    assert forall|q: int| 0 <= q < pivots.len() implies bit(#[trigger] swapped[q], pivots[q]) by {
        assert(bit(m[q], pivots[q]));
    }
    assert forall|q: int, q2: int|
        0 <= q < pivots.len() && 0 <= q2 < swapped.len() && q2 != q implies !#[trigger] bit(
        swapped[q2],
        pivots[q],
    ) by {
        assert(!bit(m[q2], pivots[q]) && !bit(m[i], pivots[q]) && !bit(m[r], pivots[q]));
    }
    assert forall|q: int, c: nat|
        pivots.len() <= q < swapped.len() && c < lead implies !#[trigger] bit(swapped[q], c) by {
        assert(!bit(m[q], c) && !bit(m[i], c) && !bit(m[r], c));
    }
}

/// A column without a one below the pivot rows needs no pivot.
proof fn lemma_skip_column(m: Seq<int>, pivots: Seq<nat>, lead: nat)
    requires
        echelon(m, pivots, lead),
        forall|q: int| pivots.len() <= q < m.len() ==> !bit(#[trigger] m[q], lead),
    ensures
        echelon(m, pivots, lead + 1),
{
    assert forall|q: int, c: nat|
        pivots.len() <= q < m.len() && c < lead + 1 implies !#[trigger] bit(m[q], c) by {
        if c == lead {
            assert(!bit(m[q], lead));
        }
    }
}

/// The reduction of [`reduce_row_echelon_form`], on a table of the matrix
/// `base`.
fn reduce_table(
    m: &mut Vec<Integer>,
    h: &mut Vec<Integer>,
    column_count: usize,
    Ghost(base): Ghost<Seq<int>>,
) -> (rank: usize)
    requires
        column_count <= u32::MAX,
        table_ok(values(old(m)@), values(old(h)@), base, column_count as nat),
    ensures
        final(m).len() == old(m).len(),
        table_ok(values(final(m)@), values(final(h)@), base, column_count as nat),
        rank <= final(m).len(),
        rank <= column_count,
        forall|q: int| 0 <= q < rank ==> #[trigger] values(final(m)@)[q] != 0,
        forall|q: int| rank <= q < final(m).len() ==> #[trigger] values(final(m)@)[q] == 0,
        exists|pivots: Seq<nat>|
            pivots.len() == rank && #[trigger] echelon(
                values(final(m)@),
                pivots,
                column_count as nat,
            ) && staircase(values(final(m)@), pivots),
        (values(final(m)@), values(final(h)@)) == reduced(
            values(old(m)@),
            values(old(h)@),
            0,
            0,
            column_count as nat,
        ),
{
    let rows = m.len();
    let mut rank: usize = 0;
    let mut lead: usize = 0;
    let ghost mut pivots: Seq<nat> = Seq::empty();
    let ghost goal = reduced(values(m@), values(h@), 0, 0, column_count as nat);
    while lead < column_count && rank < rows
        invariant
            column_count <= u32::MAX,
            rows == m.len(),
            rows == h.len(),
            reduced(values(m@), values(h@), rank as int, lead as nat, column_count as nat)
                == goal,
            staircase(values(m@), pivots),
            lead <= column_count,
            rank <= rows,
            pivots.len() == rank,
            table_ok(values(m@), values(h@), base, column_count as nat),
            echelon(values(m@), pivots, lead as nat),
        decreases column_count - lead,
    {
        let found = find_pivot(m, rank, lead as u32);
        let ghost start_m = values(m@);
        let ghost start_h = values(h@);
        assert(start_m.len() == rows && start_h.len() == rows);
        if found < rows {
            let ghost before = values(m@);
            swap_both(m, h, found, rank, Ghost(base), Ghost(column_count as nat));
            let ghost m1 = values(m@);
            let ghost h1 = values(h@);
            proof {
                lemma_swap_keeps_staircase(before, pivots, found as int, rank as int);
            }
            proof {
                assert(values(m@).len() == before.len());
                lemma_swap_keeps_echelon(before, pivots, lead as nat, found as int, rank as int);
                assert(values(m@) == before.update(found as int, before[rank as int]).update(
                    rank as int,
                    before[found as int],
                ));
            }
            eliminate(
                m,
                h,
                rank,
                lead as u32,
                Ghost(base),
                Ghost(column_count as nat),
                Ghost(pivots),
            );
            proof {
                lemma_cleared_keeps_staircase(m1, pivots, lead as nat);
                pivots = pivots.push(lead as nat);
                assert(reduced(
                    start_m,
                    start_h,
                    rank as int,
                    lead as nat,
                    column_count as nat,
                ) == reduced(
                    cleared(m1, m1, rank as int, lead as nat),
                    cleared(h1, m1, rank as int, lead as nat),
                    rank + 1,
                    (lead + 1) as nat,
                    column_count as nat,
                ));
            }
            rank = rank + 1;
        } else {
            proof {
                lemma_skip_column(values(m@), pivots, lead as nat);
                assert(reduced(
                    start_m,
                    start_h,
                    rank as int,
                    lead as nat,
                    column_count as nat,
                ) == reduced(start_m, start_h, rank as int, (lead + 1) as nat, column_count as nat));
            }
        }
        lead = lead + 1;
    }
    proof {
        let after = values(m@);
        assert forall|q: int| 0 <= q < rank implies #[trigger] after[q] != 0 by {
            assert(bit(after[q], pivots[q]));
            lemma_zero_has_no_bit(pivots[q]);
        }
        assert forall|q: int| rank <= q < after.len() implies #[trigger] after[q] == 0 by {
            assert(lead == column_count);
            assert forall|c: nat| !#[trigger] bit(after[q], c) by {
                if c < lead {
                    assert(!bit(after[q], c));
                } else {
                    assert(!bit(after[q], c));
                }
            }
            assert(after[q] >= 0);
            lemma_no_bit_is_zero(after[q]);
        }
        assert(echelon(after, pivots, lead as nat));
        if lead < column_count {
            // every row is a pivot row, and a larger bound changes nothing
            assert(echelon(after, pivots, column_count as nat));
        }
    }
    rank
}

/// The matrix `m` with the history `h` is a table of some matrix: the rows
/// and the history rows are non-negative and as many, the rows fit in `cols`
/// columns, and each row is the sum of the rows of that matrix that its
/// history row picks, the history rows being independent and spanning the
/// whole space. A matrix with the unit rows as its history is one.
pub open spec fn is_table(m: Seq<int>, h: Seq<int>, cols: nat) -> bool {
    exists|base: Seq<int>| #[trigger] table_ok(m, h, base, cols)
}

/// Reduces the matrix `m` to reduced row-echelon form over GF(2), and applies
/// every row operation to the history `h` as well, so that each row stays the
/// sum of the rows that its history row picks.
///
/// Pivot columns are taken from column 0 upwards. For each one the first row
/// behind the pivot rows that has a one there is exchanged with the row just
/// behind them and added to every other row with a one in that column. The
/// result is the number of pivot rows. They come first and are not zero; all
/// rows after them are zero.
pub fn reduce_row_echelon_form(
    m: &mut Vec<Integer>,
    h: &mut Vec<Integer>,
    column_count: usize,
) -> (rank: usize)
    requires
        column_count <= u32::MAX,
        is_table(values(old(m)@), values(old(h)@), column_count as nat),
    ensures
        final(m).len() == old(m).len(),
        final(h).len() == old(h).len(),
        (values(final(m)@), values(final(h)@)) == reduced(
            values(old(m)@),
            values(old(h)@),
            0,
            0,
            column_count as nat,
        ),
        is_table(values(final(m)@), values(final(h)@), column_count as nat),
        reduced(values(final(m)@), values(final(h)@), 0, 0, column_count as nat) == (
            values(final(m)@),
            values(final(h)@),
        ),
        rank <= final(m).len(),
        rank <= column_count,
        rank == first_zero(values(final(m)@), 0),
        forall|q: int| 0 <= q < rank ==> #[trigger] values(final(m)@)[q] != 0,
        forall|q: int| rank <= q < final(m).len() ==> #[trigger] values(final(m)@)[q] == 0,
        exists|pivots: Seq<nat>|
            pivots.len() == rank && #[trigger] echelon(
                values(final(m)@),
                pivots,
                column_count as nat,
            ) && staircase(values(final(m)@), pivots),
{
    let ghost base = choose|base: Seq<int>| #[trigger]
        table_ok(values(m@), values(h@), base, column_count as nat);
    let rank = reduce_table(m, h, column_count, Ghost(base));
    proof {
        assert(table_ok(values(m@), values(h@), base, column_count as nat));
        lemma_first_zero(values(m@), 0, rank as int);
        let pivots = choose|pivots: Seq<nat>|
            pivots.len() == rank && #[trigger] echelon(values(m@), pivots, column_count as nat)
                && staircase(values(m@), pivots);
        lemma_reduction_is_stable(values(m@), values(h@), pivots, column_count as nat);
    }
    rank
}

/// The reduction leaves a matrix in reduced row-echelon form as it is, from
/// any column on: with `rank` pivot rows to the left of the column `lead`,
/// every pivot row is found in its place and clears nothing.
proof fn lemma_reduced_from(
    m: Seq<int>,
    h: Seq<int>,
    pivots: Seq<nat>,
    rank: int,
    lead: nat,
    cols: nat,
)
    requires
        m.len() == h.len(),
        echelon(m, pivots, cols),
        staircase(m, pivots),
        0 <= rank <= pivots.len(),
        forall|q: int| 0 <= q < rank ==> #[trigger] pivots[q] < lead,
        forall|q: int| rank <= q < pivots.len() ==> #[trigger] pivots[q] >= lead,
    ensures
        reduced(m, h, rank, lead, cols) == (m, h),
    decreases cols - lead,
{
    if lead < cols && rank < m.len() {
        if rank < pivots.len() && pivots[rank] == lead {
            assert(bit(m[rank], pivots[rank]));
            assert(first_with_bit(m, rank, lead) == rank);
            assert(swapped(m, rank, rank) =~= m);
            assert(swapped(h, rank, rank) =~= h);
            assert forall|q: int| 0 <= q < m.len() && q != rank implies !bit(
                #[trigger] m[q],
                lead,
            ) by {
                assert(!bit(m[q], pivots[rank]));
            }
            assert(cleared(m, m, rank, lead) =~= m);
            assert(cleared(h, m, rank, lead) =~= h);
            assert forall|q: int| rank + 1 <= q < pivots.len() implies #[trigger] pivots[q] >= lead
                + 1 by {
                assert(pivots[rank] < pivots[q]);
            }
            lemma_reduced_from(m, h, pivots, rank + 1, lead + 1, cols);
        } else {
            assert forall|q: int| rank <= q < m.len() implies !bit(#[trigger] m[q], lead) by {
                if q < pivots.len() {
                    if q > rank {
                        assert(pivots[rank] < pivots[q]);
                        assert(pivots[rank] >= lead);
                    } else {
                        assert(pivots[q] >= lead);
                    }
                    assert(!bit(m[q], lead));
                } else {
                    assert(!bit(m[q], lead));
                }
            }
            lemma_first_with_bit(m, rank, lead, m.len() as int);
            assert forall|q: int| rank <= q < pivots.len() implies #[trigger] pivots[q] >= lead
                + 1 by {
                if q > rank {
                    assert(pivots[rank] < pivots[q]);
                    assert(pivots[rank] >= lead);
                } else {
                    assert(pivots[q] >= lead);
                }
            }
            lemma_reduced_from(m, h, pivots, rank, lead + 1, cols);
        }
    }
}

/// Reducing twice is reducing once: a matrix in reduced row-echelon form,
/// with the pivot columns increasing from row to row, comes out of the
/// reduction as it went in, and so does its history.
pub proof fn lemma_reduction_is_stable(m: Seq<int>, h: Seq<int>, pivots: Seq<nat>, cols: nat)
    requires
        m.len() == h.len(),
        echelon(m, pivots, cols),
        staircase(m, pivots),
    ensures
        reduced(m, h, 0, 0, cols) == (m, h),
{
    assert forall|q: int| 0 <= q < pivots.len() implies #[trigger] pivots[q] >= 0 by {}
    lemma_reduced_from(m, h, pivots, 0, 0, cols);
}

/// The parity of the exponent of the prime of index `i` in `|y|`: whether
/// that prime goes an odd number of times into what the primes before it
/// leave of `|y|`.
pub open spec fn odd_exponent(y: int, fb: Seq<u64>, i: int) -> bool {
    multiplicity(residue(abs(y), fb, i), fb[i] as int) % 2 == 1
}

/// `row` is the exponent-parity vector of `y`: bit 0 is the sign bit, bit
/// `i + 1` the parity of the exponent of the prime of index `i`, and no bit
/// lies beyond.
pub open spec fn is_parity_row(row: int, y: int, fb: Seq<u64>) -> bool {
    &&& row >= 0
    &&& bit(row, 0) == (y < 0)
    &&& forall|i: int| 0 <= i < fb.len() ==> #[trigger] bit(row, (i + 1) as nat) == odd_exponent(y, fb, i)
    &&& forall|c: nat| c > fb.len() ==> !#[trigger] bit(row, c)
}

/// The exponent-parity vector of `y` over the first `k` primes, as a number:
/// 1 for a negative `y`, and `2^(i+1)` for every prime of index `i` with an
/// odd exponent.
pub open spec fn parity_row(y: int, fb: Seq<u64>, k: int) -> int
    decreases k,
{
    if k <= 0 {
        if y < 0 {
            1
        } else {
            0
        }
    } else if odd_exponent(y, fb, k - 1) {
        parity_row(y, fb, k - 1) + pow2(k as nat)
    } else {
        parity_row(y, fb, k - 1)
    }
}

/// The exponent-parity vectors of the relations of a list.
pub open spec fn parity_rows(rels: Seq<Triple>, fb: Seq<u64>) -> Seq<int> {
    Seq::new(rels.len(), |j: int| parity_row(rels[j].y, fb, fb.len() as int))
}

/// Trial division finds no factor in zero.
proof fn lemma_no_exponent_in_zero(fb: Seq<u64>, i: int)
    ensures
        !odd_exponent(0, fb, i),
{
    crate::smooth::lemma_residue_of_zero(fb, i);
}

/// Every bit of an exponent-parity vector is the parity of the exponent of
/// its prime: for a factor base of distinct primes and `y` other than zero,
/// bit `i + 1` tells whether the prime of index `i` divides `|y|` an odd
/// number of times, and bit 0 whether `y` is negative.
pub proof fn lemma_row_bits_are_exponent_parities(row: int, y: int, fb: Seq<u64>, i: int)
    requires
        distinct_primes(fb),
        is_parity_row(row, y, fb),
        0 <= i < fb.len(),
        y != 0,
    ensures
        bit(row, 0) == (y < 0),
        bit(row, (i + 1) as nat) == (multiplicity(abs(y), fb[i] as int) % 2 == 1),
{
    lemma_trial_division_finds_exponent(y, fb, i);
}

/// The number that [`parity_row`] gives has the bits of an exponent-parity
/// vector: it lies below `2^(k+1)`, its bit 0 is the sign bit, and its bit
/// `i + 1` is the parity of the exponent of the prime of index `i`.
pub proof fn lemma_parity_row_bits(y: int, fb: Seq<u64>, k: int)
    requires
        0 <= k <= fb.len(),
    ensures
        0 <= parity_row(y, fb, k) < pow2((k + 1) as nat),
        bit(parity_row(y, fb, k), 0) == (y < 0),
        forall|i: int|
            0 <= i < k ==> #[trigger] bit(parity_row(y, fb, k), (i + 1) as nat) == odd_exponent(
                y,
                fb,
                i,
            ),
        forall|c: nat| c > k ==> !#[trigger] bit(parity_row(y, fb, k), c),
    decreases k,
{
    vstd::arithmetic::power2::lemma2_to64();
    if k == 0 {
        let row = parity_row(y, fb, 0);
        assert forall|c: nat| #[trigger] bit(row, c) == (c == 0 && y < 0) by {
            if y < 0 {
                lemma_bit_of_pow2(0, c);
            } else {
                lemma_zero_has_no_bit(c);
            }
        }
    } else {
        lemma_parity_row_bits(y, fb, k - 1);
        let before = parity_row(y, fb, k - 1);
        let row = parity_row(y, fb, k);
        vstd::arithmetic::power2::lemma_pow2_strictly_increases(k as nat, (k + 1) as nat);
        if odd_exponent(y, fb, k - 1) {
            assert forall|c: nat| #[trigger] bit(row, c) == (c == k || bit(before, c)) by {
                lemma_bit_of_sum(before, k as nat, c);
            }
            lemma_bit_of_sum(before, k as nat, 0);
            assert forall|i: int| 0 <= i < k implies #[trigger] bit(row, (i + 1) as nat)
                == odd_exponent(y, fb, i) by {
                if i < k - 1 {
                    assert(bit(before, (i + 1) as nat) == odd_exponent(y, fb, i));
                }
            }
        } else {
            assert(!bit(before, k as nat));
            assert forall|i: int| 0 <= i < k implies #[trigger] bit(row, (i + 1) as nat)
                == odd_exponent(y, fb, i) by {
                if i < k - 1 {
                    assert(bit(before, (i + 1) as nat) == odd_exponent(y, fb, i));
                }
            }
        }
    }
}

/// The exponent-parity vector of zero is zero.
proof fn lemma_parity_row_of_zero(fb: Seq<u64>, k: int)
    ensures
        parity_row(0, fb, k) == 0,
    decreases k,
{
    if k > 0 {
        lemma_parity_row_of_zero(fb, k - 1);
        lemma_no_exponent_in_zero(fb, k - 1);
    }
}

/// The exponent-parity vector of `n` over the factor base: its row in the
/// matrix.
pub fn create_vector(n: &Integer, factor_base: &[u64]) -> (row: Integer)
    requires
        primes_in_range(factor_base@),
        factor_base.len() < u32::MAX,
    ensures
        val(row) == parity_row(val(*n), factor_base@, factor_base.len() as int),
        is_parity_row(val(row), val(*n), factor_base@),
{
    let zero = from_u64(0);
    let one = from_u64(1);
    proof {
        lemma_parity_row_bits(val(*n), factor_base@, factor_base.len() as int);
    }
    if equal(n, &zero) {
        proof {
            lemma_parity_row_of_zero(factor_base@, factor_base.len() as int);
        }
        return zero;
    }
    let negative = less(n, &zero);
    let mut cur = if negative {
        minus(&zero, n)
    } else {
        copy(n)
    };
    let mut row = if negative {
        copy(&one)
    } else {
        copy(&zero)
    };
    let mut i: usize = 0;
    while i < factor_base.len()
        invariant
            i <= factor_base.len(),
            factor_base.len() < u32::MAX,
            primes_in_range(factor_base@),
            val(one) == 1,
            val(cur) > 0,
            val(cur) == residue(abs(val(*n)), factor_base@, i as int),
            val(row) == parity_row(val(*n), factor_base@, i as int),
        decreases factor_base.len() - i,
    {
        let p = from_u64(factor_base[i]);
        let (rest, count) = strip_counting(cur, &p);
        cur = rest;
        proof {
            vstd::arithmetic::power2::lemma2_to64();
            assert(bit(val(count), 0) == (val(count) % 2 == 1));
        }
        if test_bit(&count, 0) {
            let unit = shift_left(&one, (i + 1) as u32);
            row = plus(&row, &unit);
        }
        i = i + 1;
    }
    row
}


/// A sum of rows of a matrix in echelon form that picks a pivot row has a
/// one in the pivot column of that row.
proof fn lemma_pivot_shows(m: Seq<int>, pivots: Seq<nat>, lead: nat, sel: Seq<bool>, q0: int)
    requires
        echelon(m, pivots, lead),
        sel.len() == m.len(),
        0 <= q0 < pivots.len(),
        sel[q0],
    ensures
        sum_bit(m, sel, pivots[q0], m.len() as int),
{
    let n = m.len() as int;
    let c = pivots[q0];
    lemma_sum_without(m, sel, c, n, q0);
    let rest = sel.update(q0, false);
    assert forall|q: int| 0 <= q < n implies !#[trigger] term(m, rest, c, q) by {
        if q != q0 {
            assert(!bit(m[q], pivots[q0]));
        }
    }
    lemma_sum_without_ones(m, rest, c, n);
    assert(bit(m[q0], pivots[q0]));
}

/// The rows that `sel` picks add up to zero.
pub open spec fn is_zero_sum(rows: Seq<int>, sel: Seq<bool>) -> bool {
    forall|c: nat| !#[trigger] sum_bit(rows, sel, c, rows.len() as int)
}

/// Every dependency among the rows of the matrix is a sum of history rows
/// that belong to rows of the reduced matrix after the pivot rows: the
/// result picks such history rows, and they add up to `target`.
proof fn lemma_dependency_is_sum_of_history(
    m: Seq<int>,
    h: Seq<int>,
    base: Seq<int>,
    cols: nat,
    pivots: Seq<nat>,
    target: Seq<bool>,
) -> (sel: Seq<bool>)
    requires
        table_ok(m, h, base, cols),
        base.len() == m.len(),
        echelon(m, pivots, cols),
        target.len() == base.len(),
        is_zero_sum(base, target),
    ensures
        sel.len() == h.len(),
        forall|q: int| 0 <= q < pivots.len() ==> !#[trigger] sel[q],
        forall|c: nat| #[trigger]
            sum_bit(h, sel, c, h.len() as int) == (c < h.len() && target[c as int]),
{
    let n = m.len() as int;
    let sel = lemma_span_reaches(h, target, n);
    let sums = column_sums(h, sel, base.len(), n);
    assert(sums =~= target);
    assert forall|q: int| 0 <= q < pivots.len() implies !#[trigger] sel[q] by {
        if sel[q] {
            let c = pivots[q];
            lemma_pivot_shows(m, pivots, cols, sel, q);
            assert forall|r: int| 0 <= r < m.len() implies #[trigger] bit(m[r], c) == combo_bit(
                base,
                h[r],
                c,
            ) by {}
            lemma_sum_of_recorded(m, h, base, sel, c, n);
            assert(!sum_bit(base, target, c, n));
        }
    }
    sel
}

/// A sum of rows that picks none of the first `from` rows is the sum of the
/// rows after them.
proof fn lemma_sum_of_tail(rows: Seq<int>, sel: Seq<bool>, from: int, c: nat, k: int)
    requires
        sel.len() == rows.len(),
        0 <= from <= from + k <= rows.len(),
        forall|q: int| 0 <= q < from ==> !#[trigger] sel[q],
    ensures
        sum_bit(rows, sel, c, from + k) == sum_bit(
            rows.subrange(from, rows.len() as int),
            sel.subrange(from, rows.len() as int),
            c,
            k,
        ),
    decreases k,
{
    if k == 0 {
        lemma_sum_of_none(rows, sel, c, from);
    } else {
        lemma_sum_of_tail(rows, sel, from, c, k - 1);
    }
}

/// A mask that is not zero and fits in `n` bits picks one of `n` rows.
proof fn lemma_mask_picks_some(mask: int, n: nat)
    requires
        mask > 0,
        forall|c: nat| c >= n ==> !#[trigger] bit(mask, c),
    ensures
        picks_some(picks(mask, n)),
{
    if !picks_some(picks(mask, n)) {
        assert forall|c: nat| !#[trigger] bit(mask, c) by {
            if c < n {
                assert(!picks(mask, n)[c as int]);
            }
        }
        lemma_no_bit_is_zero(mask);
    }
}

/// Some of the `masks` add up to `target`.
pub open spec fn is_sum_of(masks: Seq<int>, target: Seq<bool>) -> bool {
    exists|pick: Seq<bool>|
        pick.len() == masks.len() && #[trigger] adds_up_to(masks, pick, target)
}

/// The masks that `pick` picks add up to `target`.
pub open spec fn adds_up_to(masks: Seq<int>, pick: Seq<bool>, target: Seq<bool>) -> bool {
    forall|c: nat| #[trigger]
        sum_bit(masks, pick, c, masks.len() as int) == (c < target.len() && target[c as int])
}

/// Every choice of rows that add up to zero is a sum of the masks.
pub open spec fn covers_all_dependencies(masks: Seq<int>, rows: Seq<int>) -> bool {
    forall|target: Seq<bool>|
        target.len() == rows.len() && #[trigger] is_zero_sum(rows, target) ==> is_sum_of(
            masks,
            target,
        )
}

/// The unit rows `2^0, ..., 2^(n-1)`: the history of a matrix to which
/// nothing has been done yet.
fn unit_rows(n: usize) -> (h: Vec<Integer>)
    requires
        n <= u32::MAX,
    ensures
        h.len() == n,
        forall|j: int| 0 <= j < n ==> #[trigger] values(h@)[j] == pow2(j as nat),
{
    let one = from_u64(1);
    let mut h: Vec<Integer> = Vec::new();
    let mut j: usize = 0;
    while j < n
        invariant
            j <= n,
            n <= u32::MAX,
            val(one) == 1,
            h.len() == j,
            forall|k: int| 0 <= k < j ==> #[trigger] values(h@)[k] == pow2(k as nat),
        decreases n - j,
    {
        let unit = shift_left(&one, j as u32);
        let ghost before = values(h@);
        h.push(unit);
        proof {
            assert(values(h@) =~= before.push(val(unit)));
        }
        j = j + 1;
    }
    h
}

/// The rows that `mask` picks add up to zero, and `mask` picks at least one
/// row and no row that does not exist.
pub open spec fn is_dependency(rows: Seq<int>, mask: int) -> bool {
    &&& mask > 0
    &&& forall|c: nat| c >= rows.len() ==> !#[trigger] bit(mask, c)
    &&& forall|c: nat| !#[trigger] combo_bit(rows, mask, c)
}

/// A matrix with its untouched history is a table that the reduction can
/// work on.
pub proof fn lemma_fresh_table(m: Seq<int>, h: Seq<int>, cols: nat)
    requires
        m.len() == h.len(),
        non_negative(m),
        narrow(m, cols),
        forall|j: int| 0 <= j < h.len() ==> #[trigger] h[j] == pow2(j as nat),
    ensures
        table_ok(m, h, m, cols),
{
    lemma_units_independent(h);
    lemma_units_span(h);
    assert forall|r: int, c: nat| 0 <= r < h.len() && c >= h.len() implies !#[trigger] bit(
        h[r],
        c,
    ) by {
        lemma_bit_of_pow2(r as nat, c);
    }
    assert forall|r: int, c: nat| 0 <= r < m.len() implies #[trigger] bit(m[r], c) == combo_bit(
        m,
        h[r],
        c,
    ) by {
        lemma_combo_of_unit(m, r as nat, c, m.len() as int);
    }
}

/// The unit rows `2^0, ..., 2^(n-1)`.
pub open spec fn units(n: nat) -> Seq<int> {
    Seq::new(n, |j: int| pow2(j as nat) as int)
}

/// The first row at or after `from` that is zero, or the number of rows
/// when there is none.
pub open spec fn first_zero(m: Seq<int>, from: int) -> int
    decreases m.len() - from,
{
    if from < 0 || from >= m.len() {
        m.len() as int
    } else if m[from] == 0 {
        from
    } else {
        first_zero(m, from + 1)
    }
}

/// A zero row before which no row from `from` on is zero is the first zero
/// row.
proof fn lemma_first_zero(m: Seq<int>, from: int, i: int)
    requires
        0 <= from <= i <= m.len(),
        forall|q: int| from <= q < i ==> #[trigger] m[q] != 0,
        i < m.len() ==> m[i] == 0,
    ensures
        first_zero(m, from) == i,
    decreases i - from,
{
    if from < i {
        assert(m[from] != 0);
        lemma_first_zero(m, from + 1, i);
    }
}

/// The masks that [`dependencies`] returns for the rows of a matrix with
/// `cols` columns: the matrix is reduced with the unit rows as its history,
/// and the masks are the history rows from the first zero row on.
pub open spec fn dependency_masks(rows: Seq<int>, cols: nat) -> Seq<int> {
    let (m, h) = reduced(rows, units(rows.len()), 0, 0, cols);
    h.subrange(first_zero(m, 0), h.len() as int)
}

/// The dependencies among the rows of a matrix over GF(2).
///
/// Each result is a mask whose bits pick rows that add up to zero. The masks
/// are the history rows that belong to the zero rows of the reduced matrix,
/// in the order of those rows. Every choice of rows that add up to zero is a
/// sum of masks, so there is no mask exactly when the rows are independent;
/// and there are at least as many masks as there are more rows than columns.
pub fn dependencies(rows: Vec<Integer>, column_count: usize) -> (masks: Vec<Integer>)
    requires
        rows.len() <= u32::MAX,
        column_count <= u32::MAX,
        non_negative(values(rows@)),
        narrow(values(rows@), column_count as nat),
    ensures
        forall|k: int|
            0 <= k < masks.len() ==> is_dependency(values(rows@), #[trigger] values(masks@)[k]),
        masks.len() + column_count >= rows.len(),
        covers_all_dependencies(values(masks@), values(rows@)),
        masks.len() == 0 <==> independent(values(rows@)),
        values(masks@) == dependency_masks(values(rows@), column_count as nat),
{
    let ghost base = values(rows@);
    let zero = from_u64(0);
    let mut m = rows;
    let mut h = unit_rows(m.len());
    proof {
        lemma_fresh_table(base, values(h@), column_count as nat);
        assert(values(h@) =~= units(base.len()));
    }
    let rank = reduce_table(&mut m, &mut h, column_count, Ghost(base));
    proof {
        lemma_first_zero(values(m@), 0, rank as int);
        assert((values(m@), values(h@)) == reduced(
            base,
            units(base.len()),
            0,
            0,
            column_count as nat,
        ));
    }
    let ghost reduced_m = values(m@);
    let ghost reduced_h = values(h@);
    let mut masks: Vec<Integer> = Vec::new();
    let mut q: usize = 0;
    proof {
        assert(values(masks@) =~= values(h@).subrange(rank as int, rank as int));
    }
    while q < m.len()
        invariant
            q <= m.len(),
            m.len() == h.len(),
            base.len() == m.len(),
            val(zero) == 0,
            rank <= m.len(),
            values(m@) == reduced_m,
            values(h@) == reduced_h,
            table_ok(values(m@), values(h@), base, column_count as nat),
            forall|r: int| 0 <= r < rank ==> #[trigger] values(m@)[r] != 0,
            forall|r: int| rank <= r < m.len() ==> #[trigger] values(m@)[r] == 0,
            masks.len() == if q <= rank {
                0
            } else {
                q - rank
            },
            values(masks@) == values(h@).subrange(
                rank as int,
                if q <= rank {
                    rank as int
                } else {
                    q as int
                },
            ),
            forall|k: int|
                0 <= k < masks.len() ==> is_dependency(base, #[trigger] values(masks@)[k]),
        decreases m.len() - q,
    {
        let ghost mv = values(m@);
        let ghost hv = values(h@);
        assert(mv[q as int] == val(m[q as int]));
        if equal(&m[q], &zero) {
            let mask = copy(&h[q]);
            let ghost before = values(masks@);
            masks.push(mask);
            proof {
                assert(values(masks@) =~= before.push(val(mask)));
                assert(val(mask) == hv[q as int]);
                assert(values(masks@) =~= hv.subrange(rank as int, q + 1));
                lemma_independent_row_nonzero(hv, q as int);
                assert(hv[q as int] >= 0);
                assert forall|c: nat| !#[trigger] combo_bit(base, val(mask), c) by {
                    assert(bit(mv[q as int], c) == combo_bit(base, hv[q as int], c));
                    lemma_zero_has_no_bit(c);
                }
                assert forall|c: nat| c >= base.len() implies !#[trigger] bit(val(mask), c) by {
                    assert(!bit(hv[q as int], c));
                }
                assert(is_dependency(base, val(mask)));
            }
        }
        q = q + 1;
    }
    proof {
        let mv = values(m@);
        let hv = values(h@);
        let found = values(masks@);
        let n = base.len() as int;
        let pivots = choose|pivots: Seq<nat>|
            pivots.len() == rank && #[trigger] echelon(mv, pivots, column_count as nat)
                && staircase(mv, pivots);
        assert(found =~= hv.subrange(rank as int, n));
        assert(found == dependency_masks(base, column_count as nat));
        assert forall|target: Seq<bool>|
            target.len() == base.len() && #[trigger] is_zero_sum(base, target) implies is_sum_of(
            found,
            target,
        ) by {
            let sel = lemma_dependency_is_sum_of_history(
                mv,
                hv,
                base,
                column_count as nat,
                pivots,
                target,
            );
            let pick = sel.subrange(rank as int, n);
            assert forall|c: nat| #[trigger] sum_bit(found, pick, c, found.len() as int) == (c
                < target.len() && target[c as int]) by {
                lemma_sum_of_tail(hv, sel, rank as int, c, n - rank);
                assert(sum_bit(hv, sel, c, n) == (c < hv.len() && target[c as int]));
            }
            assert(adds_up_to(found, pick, target));
        }
        if masks.len() == 0 {
            assert forall|sel: Seq<bool>|
                sel.len() == base.len() && #[trigger] picks_some(sel) implies crate::gf2::sum_is_nonzero(
                base,
                sel,
            ) by {
                if is_zero_sum(base, sel) {
                    assert(is_sum_of(found, sel));
                    let pick = choose|pick: Seq<bool>|
                        pick.len() == found.len() && #[trigger] adds_up_to(found, pick, sel);
                    let w = choose|w: int| 0 <= w < sel.len() && #[trigger] sel[w];
                    assert(sum_bit(found, pick, w as nat, 0) == (w < sel.len() && sel[w]));
                    assert(false);
                }
                let c = choose|c: nat| sum_bit(base, sel, c, n);
                assert(sum_bit(base, sel, c, n));
            }
        } else {
            let mask = found[0];
            assert(is_dependency(base, mask));
            lemma_mask_picks_some(mask, base.len());
            assert(is_zero_sum(base, picks(mask, base.len()))) by {
                assert forall|c: nat| !#[trigger] sum_bit(base, picks(mask, base.len()), c, n) by {
                    assert(!combo_bit(base, mask, c));
                }
            }
        }
    }
    masks
}

/// The exponent-parity matrix of the relations: one row for each.
pub fn parity_matrix(factorbase: &[u64], smooths: &[Relation]) -> (rows: Vec<Integer>)
    requires
        primes_in_range(factorbase@),
        factorbase.len() < u32::MAX,
    ensures
        rows.len() == smooths.len(),
        values(rows@) == parity_rows(triples(smooths@), factorbase@),
        non_negative(values(rows@)),
        narrow(values(rows@), (factorbase.len() + 1) as nat),
{
    let ghost all = triples(smooths@);
    let mut rows: Vec<Integer> = Vec::new();
    let mut j: usize = 0;
    while j < smooths.len()
        invariant
            j <= smooths.len(),
            primes_in_range(factorbase@),
            factorbase.len() < u32::MAX,
            all == triples(smooths@),
            rows.len() == j,
            forall|k: int|
                0 <= k < j ==> #[trigger] values(rows@)[k] == parity_row(
                    all[k].y,
                    factorbase@,
                    factorbase.len() as int,
                ),
            forall|k: int|
                0 <= k < j ==> is_parity_row(#[trigger] values(rows@)[k], all[k].y, factorbase@),
        decreases smooths.len() - j,
    {
        assert(all[j as int] == triple(smooths[j as int]));
        let row = create_vector(&smooths[j].1.0, factorbase);
        let ghost before = values(rows@);
        rows.push(row);
        proof {
            assert(values(rows@) =~= before.push(val(row)));
        }
        j = j + 1;
    }
    proof {
        assert(values(rows@) =~= parity_rows(all, factorbase@));
        assert forall|r: int, c: nat|
            0 <= r < rows.len() && c >= factorbase.len() + 1 implies !#[trigger] bit(
            values(rows@)[r],
            c,
        ) by {
            assert(is_parity_row(values(rows@)[r], all[r].y, factorbase@));
        }
        assert forall|r: int| 0 <= r < rows.len() implies #[trigger] values(rows@)[r] >= 0 by {
            assert(is_parity_row(values(rows@)[r], all[r].y, factorbase@));
        }
    }
    rows
}

/// The masks are dependencies among the exponent-parity vectors of the
/// relations, every dependency is a sum of them, there are at least as many
/// as there are more relations than columns, and `r` is what trying them in
/// order gives.
pub open spec fn explains(
    masks: Seq<int>,
    rels: Seq<Triple>,
    fb: Seq<u64>,
    n: int,
    r: Option<int>,
) -> bool {
    &&& forall|k: int|
        0 <= k < masks.len() ==> is_dependency(parity_rows(rels, fb), #[trigger] masks[k])
    &&& covers_all_dependencies(masks, parity_rows(rels, fb))
    &&& masks.len() == 0 <==> independent(parity_rows(rels, fb))
    &&& masks.len() + fb.len() + 1 >= rels.len()
    &&& is_first_split(r, differences(rels, fb, masks), n)
}

/// `r` is what the solver finds in the relations: the dependencies among
/// their exponent-parity vectors are tried in the order in which the
/// reduction gives them, and `r` is the divisor that the first one with a
/// proper divisor yields, or nothing when none has one.
pub open spec fn is_solution(rels: Seq<Triple>, fb: Seq<u64>, n: int, r: Option<int>) -> bool {
    explains(dependency_masks(parity_rows(rels, fb), fb.len() + 1), rels, fb, n, r)
}

/// Looks for a proper divisor of `n` in the relations.
///
/// The exponent-parity vectors of the relations, with a sign column before
/// the columns of the factor base, are reduced over GF(2). Every dependency
/// found picks relations in whose product every prime of the factor base
/// occurs to an even power. The dependencies are tried in order, and the
/// first greatest common divisor other than 1 and `n` is returned. With more
/// relations than columns there is at least one dependency to try; without
/// any dependency among the relations there is none, and nothing is
/// returned.
pub fn algebra(factorbase: &[u64], smooths: &[Relation], n: &Integer) -> (r: Option<Integer>)
    requires
        primes_in_range(factorbase@),
        factorbase.len() < u32::MAX,
        smooths.len() <= u32::MAX,
        val(*n) > 1,
    ensures
        r.is_some() ==> 1 < val(r.unwrap()) < val(*n) && val(*n) % val(r.unwrap()) == 0,
        is_solution(triples(smooths@), factorbase@, val(*n), optional_value(r)),
        exists|masks: Seq<int>| #[trigger]
            explains(masks, triples(smooths@), factorbase@, val(*n), optional_value(r)),
        independent(parity_rows(triples(smooths@), factorbase@)) ==> r.is_none(),
{
    let rows = parity_matrix(factorbase, smooths);
    let masks = dependencies(rows, factorbase.len() + 1);
    proof {
        assert forall|k: int| 0 <= k < masks.len() implies #[trigger] values(masks@)[k] >= 0 by {
            assert(is_dependency(values(rows@), values(masks@)[k]));
        }
    }
    let r = extract_factor(factorbase, smooths, n, &masks);
    proof {
        assert(explains(
            values(masks@),
            triples(smooths@),
            factorbase@,
            val(*n),
            optional_value(r),
        ));
    }
    r
}

} // verus!
