//! What the elimination of pivot columns leaves of a row.

use crate::echelon::{is_echelon, is_free_column, lemma_extends};
use crate::elimination::{
    cover_columns, first_pivots, is_first_pivot, lead_columns, lemma_first_pivot_kept,
    lemma_first_pivots, lemma_lead, only_free, row_equations, same_modulo, starts_in,
};
use crate::gf256::{gf_inverse, lemma_inverse, lemma_mul_units, lemma_xor};
use crate::laws::law_canonical_row_unique;
use crate::linear::{
    all_met, combination, dot, lemma_dot_upto_single, lemma_plus_gap, lemma_times_met, slice_at,
    solves, symbols_shaped, Equation,
};
use crate::sparse_row::{coef, lemma_coef_absent, SparseRow};
use crate::symbol::{add_scaled, zero_bytes};
use vstd::prelude::*;

verus! {

/// The rows start in columns that are not free, one row in each of them.
pub open spec fn cover_exactly(rows: Seq<SparseRow>, is_free: Seq<bool>, size: nat) -> bool {
    &&& cover_columns(rows, is_free, size)
    &&& forall|i: int|
        0 <= i < rows.len() ==> (#[trigger] rows[i]).cols@.len() > 0
            && !is_free[rows[i].cols@[0].0 as int]
    &&& forall|i: int, j: int|
        0 <= i < rows.len() && 0 <= j < rows.len() && i != j ==> (#[trigger] rows[i]).cols@[0].0
            != (#[trigger] rows[j]).cols@[0].0
}

/// Of rows that cover the columns that are not free, the first ones cover each of them once. So
/// what the elimination leaves of a row is determined, also where several rows start in one column.
pub proof fn law_first_pivots_cover(rows: Seq<SparseRow>, is_free: Seq<bool>, size: nat)
    requires
        cover_columns(rows, is_free, size),
    ensures
        cover_exactly(first_pivots(rows, is_free), is_free, size),
{
    let first = first_pivots(rows, is_free);
    lemma_first_pivots(rows, is_free);
    assert forall|k: int| 0 <= k < first.len() implies (#[trigger] first[k]).wf(
        is_free.len(),
        size,
    ) by {
        let i = choose|i: int| 0 <= i < rows.len() && rows[i] == first[k];
        assert(rows[i].wf(is_free.len(), size));
    }
    assert forall|c: int| 0 <= c < is_free.len() && !(#[trigger] is_free[c]) implies exists|k: int|
        0 <= k < first.len() && starts_in(#[trigger] first[k], c) by {
        let at = choose|i: int| 0 <= i < rows.len() && starts_in(#[trigger] rows[i], c);
        let i = lemma_first_start(rows, c, 0, at);
        assert(is_first_pivot(rows, is_free, i));
        let k = lemma_first_pivot_kept(rows, is_free, i);
        assert(starts_in(first[k], c));
    }
}

/// The terms of an elimination. A row is over free columns where each of its entries stands in one;
/// rows cover the columns that are not free where one starts in each of them; and two equations are
/// the same modulo rows where they have the same difference between their sides for all that meets
/// the rows.
pub proof fn law_elimination_terms(
    rows: Seq<SparseRow>,
    is_free: Seq<bool>,
    size: nat,
    row: SparseRow,
    a: Equation,
    b: Equation,
)
    ensures
        only_free(row, is_free) <==> forall|i: int|
            0 <= i < row.cols@.len() ==> is_free[(#[trigger] row.cols@[i]).0 as int],
        cover_columns(rows, is_free, size) <==> {
            &&& forall|i: int| 0 <= i < rows.len() ==> (#[trigger] rows[i]).wf(is_free.len(), size)
            &&& forall|c: int|
                0 <= c < is_free.len() && !(#[trigger] is_free[c]) ==> exists|i: int|
                    0 <= i < rows.len() && (#[trigger] rows[i]).cols@.len() > 0
                        && rows[i].cols@[0].0 == c
        },
        same_modulo(rows, is_free.len(), size, a, b) <==> forall|v: Seq<u8>, t: int, affine: bool|
            v.len() == is_free.len() && (affine ==> 0 <= t < size) && #[trigger] all_met(
                row_equations(rows, is_free.len()),
                v,
                t,
                affine,
            ) ==> a.gap(v, t, affine) == b.gap(v, t, affine),
{
    if cover_columns(rows, is_free, size) {
        assert forall|c: int| 0 <= c < is_free.len() && !(#[trigger] is_free[c]) implies exists|
            i: int,
        |
            0 <= i < rows.len() && (#[trigger] rows[i]).cols@.len() > 0 && rows[i].cols@[0].0
                == c by {
            let i = choose|i: int| 0 <= i < rows.len() && starts_in(#[trigger] rows[i], c);
            assert(rows[i].cols@.len() > 0 && rows[i].cols@[0].0 == c);
        }
    }
    if forall|c: int|
        0 <= c < is_free.len() && !(#[trigger] is_free[c]) ==> exists|i: int|
            0 <= i < rows.len() && (#[trigger] rows[i]).cols@.len() > 0 && rows[i].cols@[0].0
                == c {
        assert forall|c: int| 0 <= c < is_free.len() && !(#[trigger] is_free[c]) implies exists|
            i: int,
        | 0 <= i < rows.len() && starts_in(#[trigger] rows[i], c) by {
            let i = choose|i: int|
                0 <= i < rows.len() && (#[trigger] rows[i]).cols@.len() > 0 && rows[i].cols@[0].0
                    == c;
            assert(starts_in(rows[i], c));
        }
    }
}

/// Which rows are first ones: row `i` is among them where it starts in a column that is not free
/// and no row before it starts there; and each of them is such a row.
pub proof fn law_first_pivots(rows: Seq<SparseRow>, is_free: Seq<bool>, i: int, k: int)
    ensures
        0 <= i < rows.len() && rows[i].cols@.len() > 0 && rows[i].cols@[0].0 < is_free.len()
            && !is_free[rows[i].cols@[0].0 as int] && (forall|j: int|
            0 <= j < i && (#[trigger] rows[j]).cols@.len() > 0 ==> rows[j].cols@[0].0
                != rows[i].cols@[0].0) ==> first_pivots(rows, is_free).contains(rows[i]),
        0 <= k < first_pivots(rows, is_free).len() ==> exists|j: int|
            {
                &&& 0 <= j < rows.len()
                &&& first_pivots(rows, is_free)[k] == #[trigger] rows[j]
                &&& rows[j].cols@.len() > 0
                &&& rows[j].cols@[0].0 < is_free.len()
                &&& !is_free[rows[j].cols@[0].0 as int]
                &&& forall|l: int|
                    0 <= l < j && (#[trigger] rows[l]).cols@.len() > 0 ==> rows[l].cols@[0].0
                        != rows[j].cols@[0].0
            },
{
    let first = first_pivots(rows, is_free);
    if 0 <= i < rows.len() && rows[i].cols@.len() > 0 && rows[i].cols@[0].0 < is_free.len()
        && !is_free[rows[i].cols@[0].0 as int] && (forall|j: int|
        0 <= j < i && (#[trigger] rows[j]).cols@.len() > 0 ==> rows[j].cols@[0].0
            != rows[i].cols@[0].0) {
        assert(is_first_pivot(rows, is_free, i));
        let at = lemma_first_pivot_kept(rows, is_free, i);
        assert(first[at] == rows[i]);
    }
    if 0 <= k < first.len() {
        let j = lemma_first_pivot_origin(rows, is_free, k);
        assert(first[k] == rows[j]);
        assert forall|l: int| 0 <= l < j && (#[trigger] rows[l]).cols@.len() > 0 implies
            rows[l].cols@[0].0 != rows[j].cols@[0].0 by {
            assert(!starts_in(rows[l], rows[j].cols@[0].0 as int));
        }
    }
}

/// The place of a first row among all rows.
proof fn lemma_first_pivot_origin(rows: Seq<SparseRow>, is_free: Seq<bool>, k: int) -> (i: int)
    requires
        0 <= k < first_pivots(rows, is_free).len(),
    ensures
        0 <= i < rows.len(),
        rows[i] == first_pivots(rows, is_free)[k],
        is_first_pivot(rows, is_free, i),
    decreases rows.len(),
{
    let shorter = rows.drop_last();
    if k < first_pivots(shorter, is_free).len() {
        let i = lemma_first_pivot_origin(shorter, is_free, k);
        assert forall|l: int| 0 <= l < i implies !starts_in(
            #[trigger] rows[l],
            rows[i].cols@[0].0 as int,
        ) by {
            assert(shorter[l] == rows[l]);
        }
        i
    } else {
        rows.len() - 1
    }
}

/// The first row, from row `from` on, that starts in column `c`.
proof fn lemma_first_start(rows: Seq<SparseRow>, c: int, from: int, at: int) -> (i: int)
    requires
        0 <= from <= at < rows.len(),
        starts_in(rows[at], c),
        forall|k: int| 0 <= k < from ==> !starts_in(#[trigger] rows[k], c),
    ensures
        0 <= i < rows.len(),
        starts_in(rows[i], c),
        forall|k: int| 0 <= k < i ==> !starts_in(#[trigger] rows[k], c),
    decreases at - from,
{
    if starts_in(rows[from], c) {
        from
    } else {
        lemma_first_start(rows, c, from + 1, at)
    }
}

/// Where each column that is not free is covered once, all rows are first ones.
pub proof fn law_exact_cover_is_first(rows: Seq<SparseRow>, is_free: Seq<bool>, size: nat)
    requires
        cover_exactly(rows, is_free, size),
    ensures
        first_pivots(rows, is_free) == rows,
{
    lemma_all_first(rows, is_free, size, rows.len() as int);
    assert(rows.take(rows.len() as int) =~= rows);
}

proof fn lemma_all_first(rows: Seq<SparseRow>, is_free: Seq<bool>, size: nat, m: int)
    requires
        cover_exactly(rows, is_free, size),
        0 <= m <= rows.len(),
    ensures
        first_pivots(rows.take(m), is_free) == rows.take(m),
    decreases m,
{
    let some = rows.take(m);
    if m > 0 {
        lemma_all_first(rows, is_free, size, m - 1);
        assert(some.drop_last() =~= rows.take(m - 1));
        assert(some[m - 1] == rows[m - 1]);
        assert(rows[m - 1].wf(is_free.len(), size));
        assert(rows[m - 1].cols@[0].0 < is_free.len());
        assert forall|k: int| 0 <= k < m - 1 implies !starts_in(
            #[trigger] some[k],
            some[m - 1].cols@[0].0 as int,
        ) by {
            assert(some[k] == rows[k]);
        }
        assert(is_first_pivot(some, is_free, m - 1));
        assert(some =~= rows.take(m - 1).push(rows[m - 1]));
    }
}

/// The row's equation, scaled so that its first coefficient is one.
spec fn normalized(row: SparseRow, n: nat) -> Equation {
    row.equation(n).times(gf_inverse(row.cols@[0].1))
}

proof fn lemma_normalized_echelon(rows: Seq<SparseRow>, is_free: Seq<bool>, size: nat)
    requires
        cover_exactly(rows, is_free, size),
    ensures
        is_echelon(
            Seq::new(rows.len(), |i: int| normalized(rows[i], is_free.len())),
            lead_columns(rows),
            is_free.len(),
        ),
{
    let n = is_free.len();
    let eqs = Seq::new(rows.len(), |i: int| normalized(rows[i], n));
    let lead = lead_columns(rows);
    assert forall|i: int| 0 <= i < eqs.len() implies {
        &&& (#[trigger] eqs[i]).coefs.len() == n
        &&& 0 <= lead[i] < n
        &&& eqs[i].coefs[lead[i]] == 1
    } by {
        let row = rows[i];
        assert(row.wf(n, size));
        assert(row.cols@[0].0 < n);
        assert(row.cols@[0].1 != 0);
        lemma_lead(row, n, size);
        lemma_inverse(row.cols@[0].1);
        assert(row.equation(n).coefs[lead[i]] == coef(row.cols@, lead[i]));
    }
    assert forall|i: int, c: int| 0 <= i < eqs.len() && 0 <= c < lead[i] implies
        #[trigger] eqs[i].coefs[c] == 0 by {
        let row = rows[i];
        assert(row.wf(n, size));
        assert(row.cols@[0].0 < n);
        lemma_lead(row, n, size);
        assert(row.equation(n).coefs[c] == coef(row.cols@, c));
        lemma_mul_units(gf_inverse(row.cols@[0].1));
    }
    assert forall|i: int, j: int|
        0 <= i < eqs.len() && 0 <= j < eqs.len() && i != j implies #[trigger] lead[i]
        != #[trigger] lead[j] by {
        assert(rows[i].cols@[0].0 != rows[j].cols@[0].0);
    }
}

/// Every choice of the free columns extends to a vector that meets the rows.
proof fn lemma_cover_extends(
    rows: Seq<SparseRow>,
    is_free: Seq<bool>,
    size: nat,
    f: Seq<u8>,
    t: int,
    affine: bool,
) -> (v: Seq<u8>)
    requires
        cover_exactly(rows, is_free, size),
        f.len() == is_free.len(),
        affine ==> 0 <= t < size,
    ensures
        v.len() == is_free.len(),
        forall|c: int| 0 <= c < is_free.len() && is_free[c] ==> #[trigger] v[c] == f[c],
        all_met(row_equations(rows, is_free.len()), v, t, affine),
{
    let n = is_free.len();
    let eqs = Seq::new(rows.len(), |i: int| normalized(rows[i], n));
    let lead = lead_columns(rows);
    lemma_normalized_echelon(rows, is_free, size);
    let v = lemma_extends(eqs, lead, f, t, affine);
    assert forall|c: int| 0 <= c < n && is_free[c] implies #[trigger] v[c] == f[c] by {
        assert forall|i: int| 0 <= i < lead.len() implies #[trigger] lead[i] != c by {
            assert(!is_free[rows[i].cols@[0].0 as int]);
        }
        assert(is_free_column(lead, c));
    }
    let own = row_equations(rows, n);
    assert forall|i: int| 0 <= i < own.len() implies (#[trigger] own[i]).met(v, t, affine) by {
        assert(eqs[i].met(v, t, affine));
        assert(rows[i].wf(n, size));
        assert(rows[i].cols@[0].1 != 0);
        lemma_inverse(rows[i].cols@[0].1);
        lemma_times_met(own[i], gf_inverse(rows[i].cols@[0].1), v, t, affine);
    }
    v
}

/// Outside of the free columns a row over free columns has coefficient zero.
proof fn lemma_only_free_coef(row: SparseRow, is_free: Seq<bool>, c: int)
    requires
        only_free(row, is_free),
        0 <= c < is_free.len(),
        !is_free[c],
    ensures
        coef(row.cols@, c) == 0,
{
    assert forall|i: int| 0 <= i < row.cols@.len() implies (#[trigger] row.cols@[i]).0 != c by {
        assert(is_free[row.cols@[i].0 as int]);
    }
    lemma_coef_absent(row.cols@, c);
}

/// Where a vector is zero in all free columns but `c`, only that column counts for a row over free
/// columns.
proof fn lemma_only_free_dot(row: SparseRow, is_free: Seq<bool>, v: Seq<u8>, c: int)
    requires
        only_free(row, is_free),
        v.len() == is_free.len(),
        0 <= c < is_free.len(),
        v[c] == 1,
        forall|d: int| 0 <= d < v.len() && d != c && is_free[d] ==> #[trigger] v[d] == 0,
    ensures
        dot(row.equation(v.len()).coefs, v) == coef(row.cols@, c),
{
    let coefs = row.equation(v.len()).coefs;
    assert forall|d: int| 0 <= d < v.len() && d != c implies #[trigger] coefs[d] == 0 || v[d]
        == 0 by {
        if !is_free[d] {
            assert(coefs[d] == coef(row.cols@, d));
            lemma_only_free_coef(row, is_free, d);
        }
    }
    lemma_dot_upto_single(coefs, v, c, v.len());
    assert(coefs[c] == coef(row.cols@, c));
    lemma_mul_units(coefs[c]);
}

/// The remainder modulo the pivot rows is unique: two rows over free columns that are the same
/// modulo the pivot rows are equal.
pub proof fn law_remainder_unique(
    pivots: Seq<SparseRow>,
    is_free: Seq<bool>,
    size: nat,
    a: SparseRow,
    b: SparseRow,
)
    requires
        cover_exactly(pivots, is_free, size),
        a.wf(is_free.len(), size),
        b.wf(is_free.len(), size),
        only_free(a, is_free),
        only_free(b, is_free),
        same_modulo(
            pivots,
            is_free.len(),
            size,
            a.equation(is_free.len()),
            b.equation(is_free.len()),
        ),
    ensures
        a.cols@ == b.cols@,
        a.rhs@ == b.rhs@,
{
    let n = is_free.len();
    assert forall|c: int| 0 <= c < n implies #[trigger] a.equation(n).coefs[c] == b.equation(
        n,
    ).coefs[c] by {
        if is_free[c] {
            let f = zero_bytes(n).update(c, 1);
            let v = lemma_cover_extends(pivots, is_free, size, f, 0, false);
            assert(v[c] == f[c]);
            assert forall|d: int| 0 <= d < n && d != c && is_free[d] implies #[trigger] v[d]
                == 0 by {
                assert(v[d] == f[d]);
            }
            lemma_only_free_dot(a, is_free, v, c);
            lemma_only_free_dot(b, is_free, v, c);
            assert(a.equation(n).gap(v, 0, false) == b.equation(n).gap(v, 0, false));
            lemma_xor(coef(a.cols@, c), 0, 0);
            lemma_xor(coef(b.cols@, c), 0, 0);
        } else {
            lemma_only_free_coef(a, is_free, c);
            lemma_only_free_coef(b, is_free, c);
        }
    }
    assert(a.equation(n).coefs =~= b.equation(n).coefs);
    assert forall|t: int| 0 <= t < size implies #[trigger] a.rhs@[t] == b.rhs@[t] by {
        let f = zero_bytes(n);
        let v = lemma_cover_extends(pivots, is_free, size, f, t, true);
        assert(a.equation(n).gap(v, t, true) == b.equation(n).gap(v, t, true));
        let d = dot(a.equation(n).coefs, v);
        lemma_xor(a.rhs@[t], d, 0);
        lemma_xor(b.rhs@[t], d, 0);
        lemma_xor(d, a.rhs@[t], 0);
        lemma_xor(d, b.rhs@[t], 0);
    }
    assert(a.rhs@ =~= b.rhs@);
    law_canonical_row_unique(a, b, n);
}

/// Rows that differ by a multiple of a pivot row leave the same row: `first_left` and
/// `second_left` are what the elimination leaves of `first` and `second`.
pub proof fn law_multiple_of_pivot_leaves_no_trace(
    pivots: Seq<SparseRow>,
    is_free: Seq<bool>,
    size: nat,
    first: SparseRow,
    second: SparseRow,
    i: int,
    scalar: u8,
    first_left: SparseRow,
    second_left: SparseRow,
)
    requires
        cover_exactly(pivots, is_free, size),
        first.wf(is_free.len(), size),
        0 <= i < pivots.len(),
        second.equation(is_free.len()) == first.equation(is_free.len()).plus(
            pivots[i].equation(is_free.len()),
            scalar,
        ),
        first_left.wf(is_free.len(), size),
        only_free(first_left, is_free),
        same_modulo(
            pivots,
            is_free.len(),
            size,
            first.equation(is_free.len()),
            first_left.equation(is_free.len()),
        ),
        second_left.wf(is_free.len(), size),
        only_free(second_left, is_free),
        same_modulo(
            pivots,
            is_free.len(),
            size,
            second.equation(is_free.len()),
            second_left.equation(is_free.len()),
        ),
    ensures
        first_left.cols@ == second_left.cols@,
        first_left.rhs@ == second_left.rhs@,
{
    let n = is_free.len();
    let eqs = row_equations(pivots, n);
    let p = first_left.equation(n);
    let q = second_left.equation(n);
    assert forall|v: Seq<u8>, t: int, affine: bool|
        v.len() == n && (affine ==> 0 <= t < size) && #[trigger] all_met(
            eqs,
            v,
            t,
            affine,
        ) implies p.gap(v, t, affine) == q.gap(v, t, affine) by {
        assert(eqs[i].met(v, t, affine));
        lemma_plus_gap(first.equation(n), eqs[i], scalar, v, t, affine);
    }
    assert(same_modulo(pivots, n, size, p, q));
    law_remainder_unique(pivots, is_free, size, first_left, second_left);
}

/// Elimination keeps what a row says of symbols that satisfy the pivot rows: the difference between
/// its two sides stays the same, so the symbols satisfy the new row exactly if they satisfied the
/// old one.
pub proof fn law_elimination_keeps_solutions(
    pivots: Seq<SparseRow>,
    n: nat,
    size: nat,
    before: Equation,
    after: Equation,
    x: Seq<Seq<u8>>,
)
    requires
        before.shaped(n, size),
        after.shaped(n, size),
        same_modulo(pivots, n, size, before, after),
        symbols_shaped(x, n, size),
        solves(row_equations(pivots, n), x, size),
    ensures
        add_scaled(combination(before.coefs, x, size), before.rhs, 1) == add_scaled(
            combination(after.coefs, x, size),
            after.rhs,
            1,
        ),
        combination(before.coefs, x, size) == before.rhs <==> combination(after.coefs, x, size)
            == after.rhs,
{
    let p = combination(before.coefs, x, size);
    let q = combination(after.coefs, x, size);
    assert forall|t: int| 0 <= t < size implies {
        &&& #[trigger] add_scaled(p, before.rhs, 1)[t] == add_scaled(q, after.rhs, 1)[t]
        &&& p[t] == before.rhs[t] <==> q[t] == after.rhs[t]
    } by {
        let v = slice_at(x, t);
        assert(all_met(row_equations(pivots, n), v, t, true));
        assert(before.gap(v, t, true) == after.gap(v, t, true));
        lemma_mul_units(before.rhs[t]);
        lemma_mul_units(after.rhs[t]);
        lemma_xor(p[t], before.rhs[t], 0);
        lemma_xor(q[t], after.rhs[t], 0);
        lemma_xor(before.rhs[t], 0, 0);
        lemma_xor(after.rhs[t], 0, 0);
    }
    assert(add_scaled(p, before.rhs, 1) =~= add_scaled(q, after.rhs, 1));
    if p == before.rhs {
        assert forall|t: int| 0 <= t < size implies #[trigger] q[t] == after.rhs[t] by {
            assert(add_scaled(p, before.rhs, 1)[t] == add_scaled(q, after.rhs, 1)[t]);
        }
        assert(q =~= after.rhs);
    }
    if q == after.rhs {
        assert forall|t: int| 0 <= t < size implies #[trigger] p[t] == before.rhs[t] by {
            assert(add_scaled(p, before.rhs, 1)[t] == add_scaled(q, after.rhs, 1)[t]);
        }
        assert(p =~= before.rhs);
    }
}

} // verus!
