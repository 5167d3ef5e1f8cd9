//! Sparse Gaussian elimination.

use crate::echelon::{is_echelon, is_free_column, lemma_independent};
use crate::gf256::{
    gf_div, gf_inverse, gf_mul, lemma_div, lemma_inverse, lemma_mul_units, lemma_xor,
};
use crate::linear::{
    all_met, all_shaped, dot, in_kernel, kept, lemma_all_met_push, lemma_kept_kernel,
    lemma_dot_upto_zero, lemma_met_gap, lemma_plus_gap, lemma_times_met, redundant, Equation,
};
use crate::octet::Octet;
use crate::sparse_row::{coef, lemma_coef_absent, lemma_coef_present, lemma_coef_witness, SparseRow};
use vstd::prelude::*;

verus! {

/// The equations in `n` unknowns that the rows stand for.
pub open spec fn row_equations(rows: Seq<SparseRow>, n: nat) -> Seq<Equation> {
    Seq::new(rows.len(), |i: int| rows[i].equation(n))
}

/// The first column of each row.
pub open spec fn lead_columns(rows: Seq<SparseRow>) -> Seq<int> {
    Seq::new(rows.len(), |i: int| rows[i].cols@[0].0 as int)
}

/// All rows are canonical rows over `n` unknowns of `size` bytes.
pub open spec fn all_wf(rows: Seq<SparseRow>, n: nat, size: nat) -> bool {
    forall|i: int| 0 <= i < rows.len() ==> (#[trigger] rows[i]).wf(n, size)
}

/// Each pivot row starts, with coefficient one, in a column of its own; these are the columns that
/// are not free.
pub open spec fn are_pivots(
    pivots: Seq<SparseRow>,
    is_free: Seq<bool>,
    size: nat,
) -> bool {
    &&& all_wf(pivots, is_free.len(), size)
    &&& forall|i: int|
        0 <= i < pivots.len() ==> (#[trigger] pivots[i]).cols@.len() > 0 && pivots[i].cols@[0].1
            == 1
    &&& forall|i: int, j: int|
        0 <= i < pivots.len() && 0 <= j < pivots.len() && i != j ==> (
        #[trigger] pivots[i]).cols@[0].0 != (#[trigger] pivots[j]).cols@[0].0
    &&& forall|c: int|
        0 <= c < is_free.len() ==> (#[trigger] is_free[c] <==> is_free_column(
            lead_columns(pivots),
            c,
        ))
}

/// The row starts in column `c`.
pub open spec fn starts_in(row: SparseRow, c: int) -> bool {
    row.cols@.len() > 0 && row.cols@[0].0 == c
}

/// For every column that is not free there is a row that starts there, with whatever coefficient.
pub open spec fn cover_columns(rows: Seq<SparseRow>, is_free: Seq<bool>, size: nat) -> bool {
    &&& all_wf(rows, is_free.len(), size)
    &&& forall|c: int|
        0 <= c < is_free.len() && !(#[trigger] is_free[c]) ==> exists|i: int|
            0 <= i < rows.len() && starts_in(#[trigger] rows[i], c)
}

/// Pivot rows cover the columns that are not free.
pub proof fn lemma_pivots_cover(pivots: Seq<SparseRow>, is_free: Seq<bool>, size: nat)
    requires
        are_pivots(pivots, is_free, size),
    ensures
        cover_columns(pivots, is_free, size),
{
    let lead = lead_columns(pivots);
    assert forall|c: int| 0 <= c < is_free.len() && !(#[trigger] is_free[c]) implies exists|i: int|
        0 <= i < pivots.len() && starts_in(#[trigger] pivots[i], c) by {
        assert(!is_free_column(lead, c));
        let i = choose|i: int| 0 <= i < lead.len() && #[trigger] lead[i] == c;
        assert(pivots[i].cols@.len() > 0);
        assert(starts_in(pivots[i], c));
    }
}

/// For every vector that meets the pivot rows, the two equations have the same gap.
pub open spec fn same_modulo(
    pivots: Seq<SparseRow>,
    n: nat,
    size: nat,
    a: Equation,
    b: Equation,
) -> bool {
    forall|v: Seq<u8>, t: int, affine: bool|
        v.len() == n && (affine ==> 0 <= t < size) && #[trigger] all_met(
            row_equations(pivots, n),
            v,
            t,
            affine,
        ) ==> a.gap(v, t, affine) == b.gap(v, t, affine)
}

/// Before its first column a row has only zero coefficients.
pub proof fn lemma_lead(row: SparseRow, n: nat, size: nat)
    requires
        row.wf(n, size),
        row.cols@.len() > 0,
    ensures
        coef(row.cols@, row.cols@[0].0 as int) == row.cols@[0].1,
        forall|c: int| c < row.cols@[0].0 ==> #[trigger] coef(row.cols@, c) == 0,
{
    lemma_coef_present(row.cols@, 0);
    assert forall|c: int| c < row.cols@[0].0 implies #[trigger] coef(row.cols@, c) == 0 by {
        lemma_coef_absent(row.cols@, c);
    }
}

/// Pivot rows are in echelon form.
pub proof fn lemma_pivots_echelon(pivots: Seq<SparseRow>, is_free: Seq<bool>, size: nat)
    requires
        are_pivots(pivots, is_free, size),
    ensures
        is_echelon(
            row_equations(pivots, is_free.len()),
            lead_columns(pivots),
            is_free.len(),
        ),
{
    let n = is_free.len();
    let eqs = row_equations(pivots, n);
    let lead = lead_columns(pivots);
    assert forall|i: int| 0 <= i < eqs.len() implies {
        &&& (#[trigger] eqs[i]).coefs.len() == n
        &&& 0 <= lead[i] < n
        &&& eqs[i].coefs[lead[i]] == 1
    } by {
        assert(pivots[i].wf(n, size));
        assert(pivots[i].cols@[0].0 < n);
        lemma_lead(pivots[i], n, size);
    }
    assert forall|i: int, c: int| 0 <= i < eqs.len() && 0 <= c < lead[i] implies
        #[trigger] eqs[i].coefs[c] == 0 by {
        assert(pivots[i].wf(n, size));
        assert(pivots[i].cols@[0].0 < n);
        lemma_lead(pivots[i], n, size);
        assert(coef(pivots[i].cols@, c) == 0);
    }
    assert forall|i: int, j: int|
        0 <= i < eqs.len() && 0 <= j < eqs.len() && i != j implies #[trigger] lead[i]
        != #[trigger] lead[j] by {
        assert(pivots[i].cols@[0].0 != pivots[j].cols@[0].0);
    }
}

/// The position of the first pivot row that starts in column `j`.
fn find_pivot(pivots: &[SparseRow], j: u32) -> (r: Option<usize>)
    ensures
        match r {
            Some(idx) => {
                &&& idx < pivots@.len()
                &&& pivots@[idx as int].cols@.len() > 0
                &&& pivots@[idx as int].cols@[0].0 == j
                &&& forall|i: int|
                    0 <= i < idx && (#[trigger] pivots@[i]).cols@.len() > 0
                        ==> pivots@[i].cols@[0].0 != j
            },
            None => forall|i: int|
                0 <= i < pivots@.len() && (#[trigger] pivots@[i]).cols@.len() > 0
                    ==> pivots@[i].cols@[0].0 != j,
        },
{
    let mut i: usize = 0;
    while i < pivots.len()
        invariant
            i <= pivots@.len(),
            forall|k: int|
                0 <= k < i && (#[trigger] pivots@[k]).cols@.len() > 0 ==> pivots@[k].cols@[0].0
                    != j,
        decreases pivots@.len() - i,
    {
        if let Some(first) = pivots[i].min_col() {
            if first == j {
                return Some(i);
            }
        }
        i = i + 1;
    }
    None
}

/// Cancels column `j` of a row with the pivot row that starts there.
fn cancel(
    row: &mut SparseRow,
    pivot: &SparseRow,
    j: u32,
    Ghost(n): Ghost<nat>,
    Ghost(size): Ghost<nat>,
)
    requires
        old(row).wf(n, size),
        pivot.wf(n, size),
        starts_in(*pivot, j as int),
        coef(old(row).cols@, j as int) != 0,
    ensures
        final(row).wf(n, size),
        coef(final(row).cols@, j as int) == 0,
        forall|c: int| c < j ==> #[trigger] coef(final(row).cols@, c) == coef(old(row).cols@, c),
        final(row).equation(n) == old(row).equation(n).plus(
            pivot.equation(n),
            gf_div(coef(old(row).cols@, j as int), pivot.cols@[0].1),
        ),
{
    let coeff: u8 = row.coeff_at(j);
    let ghost before = *row;
    proof {
        lemma_lead(*pivot, n, size);
        lemma_div(coeff, pivot.cols@[0].1);
    }
    let scalar: Octet = Octet::new(coeff) / Octet::new(pivot.coeff_at(j));
    row.fma(pivot, &scalar);
    proof {
        let s = scalar.value;
        let big = (j + 1) as nat;
        assert forall|c: int| 0 <= c <= j implies coef(row.cols@, c) == coef(before.cols@, c)
            ^ gf_mul(s, coef(pivot.cols@, c)) by {
            assert(row.equation(big).coefs[c] == before.equation(big).plus(
                pivot.equation(big),
                s,
            ).coefs[c]);
        }
        lemma_mul_units(s);
        lemma_xor(coeff, 0, 0);
        assert forall|c: int| c < j implies #[trigger] coef(row.cols@, c) == coef(
            before.cols@,
            c,
        ) by {
            if c < 0 {
                lemma_coef_absent(row.cols@, c);
                lemma_coef_absent(before.cols@, c);
            } else {
                assert(coef(pivot.cols@, c) == 0);
                lemma_xor(coef(before.cols@, c), 0, 0);
            }
        }
        assert(row.equation(n).rhs.len() == size);
    }
}

/// The row has entries in free columns only.
pub open spec fn only_free(row: SparseRow, is_free: Seq<bool>) -> bool {
    forall|i: int|
        0 <= i < row.cols@.len() ==> is_free[(#[trigger] row.cols@[i]).0 as int]
}

/// One cancellation keeps the row the same modulo the pivot rows.
proof fn lemma_cancel_same(
    pivots: Seq<SparseRow>,
    idx: int,
    n: nat,
    size: nat,
    a: Equation,
    b: Equation,
    c: Equation,
    s: u8,
)
    requires
        0 <= idx < pivots.len(),
        b.shaped(n, size),
        same_modulo(pivots, n, size, a, b),
        c == b.plus(pivots[idx].equation(n), s),
    ensures
        same_modulo(pivots, n, size, a, c),
{
    let eqs = row_equations(pivots, n);
    assert forall|v: Seq<u8>, t: int, affine: bool|
        v.len() == n && (affine ==> 0 <= t < size) && #[trigger] all_met(
            eqs,
            v,
            t,
            affine,
        ) implies a.gap(v, t, affine) == c.gap(v, t, affine) by {
        assert(eqs[idx].met(v, t, affine));
        lemma_plus_gap(b, eqs[idx], s, v, t, affine);
    }
}

/// Row `i` starts in a column that is not free, and none before it starts there.
pub open spec fn is_first_pivot(pivots: Seq<SparseRow>, is_free: Seq<bool>, i: int) -> bool {
    &&& pivots[i].cols@.len() > 0
    &&& pivots[i].cols@[0].0 < is_free.len()
    &&& !is_free[pivots[i].cols@[0].0 as int]
    &&& forall|k: int| 0 <= k < i ==> !starts_in(#[trigger] pivots[k], pivots[i].cols@[0].0 as int)
}

/// For each column that is not free the first row that starts there, in the order of the rows.
pub open spec fn first_pivots(pivots: Seq<SparseRow>, is_free: Seq<bool>) -> Seq<SparseRow>
    decreases pivots.len(),
{
    if pivots.len() == 0 {
        Seq::empty()
    } else if is_first_pivot(pivots, is_free, pivots.len() - 1) {
        first_pivots(pivots.drop_last(), is_free).push(pivots.last())
    } else {
        first_pivots(pivots.drop_last(), is_free)
    }
}

/// A first pivot row is among them.
pub proof fn lemma_first_pivot_kept(pivots: Seq<SparseRow>, is_free: Seq<bool>, i: int) -> (k: int)
    requires
        0 <= i < pivots.len(),
        is_first_pivot(pivots, is_free, i),
    ensures
        0 <= k < first_pivots(pivots, is_free).len(),
        first_pivots(pivots, is_free)[k] == pivots[i],
    decreases pivots.len(),
{
    let shorter = pivots.drop_last();
    if i == pivots.len() - 1 {
        first_pivots(shorter, is_free).len() as int
    } else {
        assert(shorter[i] == pivots[i]);
        assert forall|k: int| 0 <= k < i implies !starts_in(
            #[trigger] shorter[k],
            shorter[i].cols@[0].0 as int,
        ) by {
            assert(shorter[k] == pivots[k]);
        }
        lemma_first_pivot_kept(shorter, is_free, i)
    }
}

/// The first pivot rows are pivot rows; they start in columns that are not free, one row in each.
pub proof fn lemma_first_pivots(pivots: Seq<SparseRow>, is_free: Seq<bool>)
    ensures
        forall|k: int|
            0 <= k < first_pivots(pivots, is_free).len() ==> {
                let row = #[trigger] first_pivots(pivots, is_free)[k];
                &&& pivots.contains(row)
                &&& row.cols@.len() > 0
                &&& row.cols@[0].0 < is_free.len()
                &&& !is_free[row.cols@[0].0 as int]
            },
        forall|k: int, l: int|
            0 <= k < first_pivots(pivots, is_free).len() && 0 <= l < first_pivots(
                pivots,
                is_free,
            ).len() && k != l ==> (#[trigger] first_pivots(pivots, is_free)[k]).cols@[0].0 != (
            #[trigger] first_pivots(pivots, is_free)[l]).cols@[0].0,
    decreases pivots.len(),
{
    if pivots.len() > 0 {
        let shorter = pivots.drop_last();
        let before = first_pivots(shorter, is_free);
        let all = first_pivots(pivots, is_free);
        let last = pivots.len() - 1;
        lemma_first_pivots(shorter, is_free);
        assert forall|k: int| 0 <= k < before.len() implies pivots.contains(
            #[trigger] before[k],
        ) && (is_first_pivot(pivots, is_free, last) ==> before[k].cols@[0].0
            != pivots[last].cols@[0].0) by {
            assert(shorter.contains(before[k]));
            let i = choose|i: int| 0 <= i < shorter.len() && shorter[i] == before[k];
            assert(pivots[i] == before[k]);
        }
        assert forall|k: int| 0 <= k < all.len() implies {
            let row = #[trigger] all[k];
            &&& pivots.contains(row)
            &&& row.cols@.len() > 0
            &&& row.cols@[0].0 < is_free.len()
            &&& !is_free[row.cols@[0].0 as int]
        } by {
            if k < before.len() {
                assert(all[k] == before[k]);
            } else {
                assert(all[k] == pivots[last]);
            }
        }
        assert forall|k: int, l: int|
            0 <= k < all.len() && 0 <= l < all.len() && k != l implies (
        #[trigger] all[k]).cols@[0].0 != (#[trigger] all[l]).cols@[0].0 by {
            if k < before.len() && l < before.len() {
                assert(before[k].cols@[0].0 != before[l].cols@[0].0);
            } else if k < before.len() {
                assert(before[k].cols@[0].0 != pivots[last].cols@[0].0);
            } else {
                assert(before[l].cols@[0].0 != pivots[last].cols@[0].0);
            }
        }
    }
}

/// What is the same modulo the first pivot rows is the same modulo all of them.
pub proof fn lemma_same_modulo_first(
    pivots: Seq<SparseRow>,
    is_free: Seq<bool>,
    n: nat,
    size: nat,
    a: Equation,
    b: Equation,
)
    requires
        same_modulo(first_pivots(pivots, is_free), n, size, a, b),
    ensures
        same_modulo(pivots, n, size, a, b),
{
    let all = row_equations(pivots, n);
    let first = row_equations(first_pivots(pivots, is_free), n);
    lemma_first_pivots(pivots, is_free);
    assert forall|v: Seq<u8>, t: int, affine: bool|
        v.len() == n && (affine ==> 0 <= t < size) && #[trigger] all_met(
            all,
            v,
            t,
            affine,
        ) implies a.gap(v, t, affine) == b.gap(v, t, affine) by {
        assert forall|k: int| 0 <= k < first.len() implies (#[trigger] first[k]).met(
            v,
            t,
            affine,
        ) by {
            let row = first_pivots(pivots, is_free)[k];
            let i = choose|i: int| 0 <= i < pivots.len() && pivots[i] == row;
            assert(all[i].met(v, t, affine));
        }
        assert(all_met(first, v, t, affine));
    }
}

/// Eliminates every column of `row` that is not free, so that only free columns remain.
///
/// Each such column is cancelled with the first pivot row that starts there. The row that is left
/// is the same as before modulo these pivot rows, and so modulo all of them; a row over free
/// columns is left as it is, whatever the pivot rows are.
pub fn eliminate_pivots(row: &mut SparseRow, pivots: &[SparseRow], is_free: &[bool])
    requires
        old(row).within(is_free@.len()),
        !only_free(*old(row), is_free@) ==> {
            &&& old(row).canonical()
            &&& cover_columns(pivots@, is_free@, old(row).rhs@.len())
        },
    ensures
        only_free(*old(row), is_free@) ==> *final(row) == *old(row),
        old(row).canonical() ==> final(row).canonical(),
        final(row).within(is_free@.len()),
        final(row).rhs@.len() == old(row).rhs@.len(),
        only_free(*final(row), is_free@),
        same_modulo(
            first_pivots(pivots@, is_free@),
            is_free@.len(),
            old(row).rhs@.len(),
            old(row).equation(is_free@.len()),
            final(row).equation(is_free@.len()),
        ),
        same_modulo(
            pivots@,
            is_free@.len(),
            old(row).rhs@.len(),
            old(row).equation(is_free@.len()),
            final(row).equation(is_free@.len()),
        ),
{
    let ghost before = *row;
    let ghost n = is_free@.len();
    let ghost size = row.rhs@.len();
    let ghost first = first_pivots(pivots@, is_free@);
    let ghost mut low: int = 0;
    loop
        invariant
            n == is_free@.len(),
            first == first_pivots(pivots@, is_free@),
            size == before.rhs@.len(),
            row.within(n),
            row.rhs@.len() == size,
            only_free(before, is_free@) ==> *row == before,
            !only_free(before, is_free@) ==> row.canonical() && cover_columns(
                pivots@,
                is_free@,
                size,
            ),
            same_modulo(first, n, size, before.equation(n), row.equation(n)),
            0 <= low <= n,
            forall|i: int|
                0 <= i < row.cols@.len() && (#[trigger] row.cols@[i]).0 < low
                    ==> is_free@[row.cols@[i].0 as int],
        ensures
            row.within(n),
            row.rhs@.len() == size,
            only_free(before, is_free@) ==> *row == before,
            !only_free(before, is_free@) ==> row.canonical(),
            only_free(*row, is_free@),
            same_modulo(first, n, size, before.equation(n), row.equation(n)),
        decreases n - low,
    {
        let mut found: Option<u32> = None;
        let mut i: usize = 0;
        while i < row.cols.len()
            invariant_except_break
                found is None,
            invariant
                n == is_free@.len(),
                row.within(n),
                i <= row.cols@.len(),
                forall|k: int| 0 <= k < i ==> is_free@[(#[trigger] row.cols@[k]).0 as int],
            ensures
                match found {
                    Some(j) => 0 <= i < row.cols@.len() && row.cols@[i as int].0 == j
                        && !is_free@[j as int],
                    None => i == row.cols@.len(),
                },
                forall|k: int| 0 <= k < i ==> is_free@[(#[trigger] row.cols@[k]).0 as int],
                i <= row.cols@.len(),
            decreases row.cols@.len() - i,
        {
            let c: u32 = row.cols[i].0;
            proof {
                assert(row.cols@[i as int].0 < n);
            }
            if !is_free[c as usize] {
                found = Some(c);
                break ;
            }
            i = i + 1;
        }
        let j: u32 = match found {
            Some(j) => j,
            None => {
                break ;
            },
        };
        let ghost current = *row;
        proof {
            assert(!only_free(before, is_free@));
            assert(row.cols@[i as int].0 < n);
            assert(j >= low);
            lemma_coef_present(row.cols@, i as int);
        }
        let pivot: Option<usize> = find_pivot(pivots, j);
        proof {
            let k = choose|k: int|
                0 <= k < pivots@.len() && starts_in(#[trigger] pivots@[k], j as int);
            assert(starts_in(pivots@[k], j as int));
        }
        let idx: usize = pivot.unwrap();
        cancel(row, &pivots[idx], j, Ghost(n), Ghost(size));
        proof {
            assert(is_first_pivot(pivots@, is_free@, idx as int));
            let at = lemma_first_pivot_kept(pivots@, is_free@, idx as int);
            lemma_cancel_same(
                first,
                at,
                n,
                size,
                before.equation(n),
                current.equation(n),
                row.equation(n),
                gf_div(coef(current.cols@, j as int), pivots@[idx as int].cols@[0].1),
            );
            assert forall|k: int|
                0 <= k < row.cols@.len() && (#[trigger] row.cols@[k]).0 < j
                    + 1 implies is_free@[row.cols@[k].0 as int] by {
                let c = row.cols@[k].0 as int;
                lemma_coef_present(row.cols@, k);
                if c < j {
                    assert(coef(current.cols@, c) == coef(row.cols@, c));
                    let l = lemma_coef_witness(current.cols@, c);
                    assert(l < i) by {
                        if l > i {
                            assert(current.cols@[i as int].0 < current.cols@[l].0);
                        }
                    }
                    assert(is_free@[current.cols@[l].0 as int]);
                }
            }
            low = j + 1;
        }
    }
    proof {
        lemma_same_modulo_first(
            pivots@,
            is_free@,
            n,
            size,
            before.equation(n),
            row.equation(n),
        );
    }
}

/// The last equation is redundant where it reduces to an empty row.
proof fn lemma_step_redundant(
    eqs: Seq<Equation>,
    eq: Equation,
    pivots: Seq<SparseRow>,
    n: nat,
    size: nat,
    row: SparseRow,
)
    requires
        all_shaped(eqs.push(eq), n, size),
        row.cols@.len() == 0,
        same_modulo(pivots, n, size, eq, row.equation(n)),
        forall|v: Seq<u8>|
            v.len() == n ==> (#[trigger] in_kernel(row_equations(pivots, n), v) <==> in_kernel(
                kept(eqs),
                v,
            )),
    ensures
        kept(eqs.push(eq)) == kept(eqs),
{
    let longer = eqs.push(eq);
    assert(longer.drop_last() =~= eqs);
    assert(longer.take(longer.len() - 1) =~= eqs);
    assert(longer[eqs.len() as int] == eq);
    assert forall|v: Seq<u8>| v.len() == n && #[trigger] in_kernel(eqs, v) implies dot(
        eq.coefs,
        v,
    ) == 0 by {
        assert forall|i: int| 0 <= i < eqs.len() implies (#[trigger] eqs[i]).coefs.len()
            == v.len() by {
            assert(longer[i] == eqs[i]);
        }
        lemma_kept_kernel(eqs, v);
        assert(in_kernel(row_equations(pivots, n), v));
        let reduced = row.equation(n);
        assert(eq.gap(v, 0, false) == reduced.gap(v, 0, false));
        assert forall|c: int| 0 <= c < n implies #[trigger] reduced.coefs[c] == 0 || v[c]
            == 0 by {
            lemma_coef_absent(row.cols@, c);
        }
        lemma_dot_upto_zero(reduced.coefs, v, n);
        lemma_xor(0, 0, 0);
        lemma_met_gap(eq, v, 0, false);
    }
    assert(redundant(longer, longer.len() - 1));
}

/// The last equation is kept where it reduces to a row that starts in a free column.
proof fn lemma_step_kept(
    eqs: Seq<Equation>,
    eq: Equation,
    pivots: Seq<SparseRow>,
    is_free: Seq<bool>,
    size: nat,
    row: SparseRow,
)
    requires
        all_shaped(eqs.push(eq), is_free.len(), size),
        are_pivots(pivots, is_free, size),
        row.wf(is_free.len(), size),
        row.cols@.len() > 0,
        is_free[row.cols@[0].0 as int],
        same_modulo(pivots, is_free.len(), size, eq, row.equation(is_free.len())),
        forall|v: Seq<u8>|
            v.len() == is_free.len() ==> (#[trigger] in_kernel(
                row_equations(pivots, is_free.len()),
                v,
            ) <==> in_kernel(kept(eqs), v)),
    ensures
        kept(eqs.push(eq)) == kept(eqs).push(eq),
{
    let n = is_free.len();
    let longer = eqs.push(eq);
    assert(longer.drop_last() =~= eqs);
    assert(longer.take(longer.len() - 1) =~= eqs);
    assert(longer[eqs.len() as int] == eq);
    let reduced = row.equation(n);
    let j = row.cols@[0].0 as int;
    assert(row.cols@[0].0 < n);
    lemma_lead(row, n, size);
    lemma_pivots_echelon(pivots, is_free, size);
    assert forall|c: int| 0 <= c < j implies #[trigger] reduced.coefs[c] == 0 by {
        assert(coef(row.cols@, c) == 0);
    }
    let v = lemma_independent(row_equations(pivots, n), lead_columns(pivots), reduced.coefs, j);
    assert(in_kernel(row_equations(pivots, n), v));
    assert(in_kernel(kept(eqs), v));
    assert forall|i: int| 0 <= i < eqs.len() implies (#[trigger] eqs[i]).coefs.len()
        == v.len() by {
        assert(longer[i] == eqs[i]);
    }
    lemma_kept_kernel(eqs, v);
    assert(eq.gap(v, 0, false) == reduced.gap(v, 0, false));
    lemma_met_gap(eq, v, 0, false);
    lemma_met_gap(reduced, v, 0, false);
    assert(in_kernel(longer.take(longer.len() - 1), v));
    assert(!redundant(longer, longer.len() - 1));
}

/// The two systems have the same solutions, and so have their homogeneous parts.
pub open spec fn same_solutions(a: Seq<Equation>, b: Seq<Equation>, n: nat, size: nat) -> bool {
    forall|v: Seq<u8>, t: int, affine: bool|
        v.len() == n && (affine ==> 0 <= t < size) ==> (#[trigger] all_met(a, v, t, affine)
            <==> all_met(b, v, t, affine))
}

/// A row that starts in a free column becomes a pivot row once it is normalized.
proof fn lemma_new_pivot(
    pivots: Seq<SparseRow>,
    is_free: Seq<bool>,
    size: nat,
    row: SparseRow,
)
    requires
        are_pivots(pivots, is_free, size),
        row.wf(is_free.len(), size),
        row.cols@.len() > 0,
        row.cols@[0].1 == 1,
        is_free[row.cols@[0].0 as int],
    ensures
        are_pivots(pivots.push(row), is_free.update(row.cols@[0].0 as int, false), size),
{
    let j = row.cols@[0].0 as int;
    assert(row.cols@[0].0 < is_free.len());
    let more = pivots.push(row);
    let fewer = is_free.update(j, false);
    let lead = lead_columns(pivots);
    let more_lead = lead_columns(more);
    assert(more_lead =~= lead.push(j));
    assert forall|i: int| 0 <= i < more.len() implies (#[trigger] more[i]).wf(
        fewer.len(),
        size,
    ) by {
        if i < pivots.len() {
            assert(pivots[i].wf(is_free.len(), size));
        }
    }
    assert forall|i: int| 0 <= i < pivots.len() implies (#[trigger] pivots[i]).cols@[0].0 != j by {
        assert(lead[i] != j);
    }
    assert forall|c: int| 0 <= c < fewer.len() implies (#[trigger] fewer[c] <==> is_free_column(
        more_lead,
        c,
    )) by {
        if c == j {
            assert(more_lead[pivots.len() as int] == j);
        } else {
            assert(fewer[c] == is_free[c]);
            if is_free_column(lead, c) {
                assert forall|i: int| 0 <= i < more_lead.len() implies #[trigger] more_lead[i]
                    != c by {
                    if i < lead.len() {
                        assert(lead[i] != c);
                    }
                }
            }
            if is_free_column(more_lead, c) {
                assert forall|i: int| 0 <= i < lead.len() implies #[trigger] lead[i] != c by {
                    assert(more_lead[i] == lead[i]);
                }
            }
        }
    }
}

/// Adding the normalized row to the pivot rows has the effect of adding the equation that it was
/// reduced from.
proof fn lemma_new_pivot_same(
    eqs: Seq<Equation>,
    eq: Equation,
    pivots: Seq<SparseRow>,
    n: nat,
    size: nat,
    row: SparseRow,
    normalized: SparseRow,
    s: u8,
)
    requires
        same_solutions(row_equations(pivots, n), eqs, n, size),
        same_modulo(pivots, n, size, eq, row.equation(n)),
        row.wf(n, size),
        s != 0,
        normalized.equation(n) == row.equation(n).times(s),
    ensures
        same_solutions(row_equations(pivots.push(normalized), n), eqs.push(eq), n, size),
{
    let more = row_equations(pivots.push(normalized), n);
    let rest = row_equations(pivots, n);
    assert(more =~= rest.push(normalized.equation(n)));
    assert forall|v: Seq<u8>, t: int, affine: bool|
        v.len() == n && (affine ==> 0 <= t < size) implies (#[trigger] all_met(more, v, t, affine)
        <==> all_met(eqs.push(eq), v, t, affine)) by {
        lemma_all_met_push(rest, normalized.equation(n), v, t, affine);
        lemma_all_met_push(eqs, eq, v, t, affine);
        lemma_times_met(row.equation(n), s, v, t, affine);
        lemma_met_gap(row.equation(n), v, t, affine);
        lemma_met_gap(eq, v, t, affine);
        assert(all_met(rest, v, t, affine) <==> all_met(eqs, v, t, affine));
    }
}

/// Forward elimination: turns the rows into pivot rows, one for each column that is not free.
///
/// Rows are taken in order; one that depends on those before it is dropped. There are as many
/// pivot rows as rows that are kept, and they have the same solutions.
pub fn forward_eliminate(rows: &[SparseRow], n: usize, Ghost(size): Ghost<nat>) -> (r: (
    Vec<SparseRow>,
    Vec<bool>,
))
    requires
        all_wf(rows@, n as nat, size),
        n <= u32::MAX,
    ensures
        r.1@.len() == n,
        are_pivots(r.0@, r.1@, size),
        r.0@.len() == kept(row_equations(rows@, n as nat)).len(),
        same_solutions(
            row_equations(r.0@, n as nat),
            kept(row_equations(rows@, n as nat)),
            n as nat,
            size,
        ),
{
    let ghost width = n as nat;
    let ghost eqs = row_equations(rows@, width);
    let mut pivots: Vec<SparseRow> = Vec::new();
    let mut is_free: Vec<bool> = vec![true; n];
    let mut r: usize = 0;
    proof {
        assert(eqs.take(0) =~= Seq::<Equation>::empty());
        assert(kept(eqs.take(0)) =~= Seq::<Equation>::empty());
        assert(row_equations(pivots@, width) =~= Seq::<Equation>::empty());
    }
    while r < rows.len()
        invariant
            r <= rows@.len(),
            width == n,
            n <= u32::MAX,
            eqs == row_equations(rows@, width),
            all_wf(rows@, width, size),
            is_free@.len() == n,
            are_pivots(pivots@, is_free@, size),
            pivots@.len() == kept(eqs.take(r as int)).len(),
            same_solutions(
                row_equations(pivots@, width),
                kept(eqs.take(r as int)),
                width,
                size,
            ),
        decreases rows@.len() - r,
    {
        let mut row: SparseRow = rows[r].clone();
        let ghost done = eqs.take(r as int);
        let ghost eq = eqs[r as int];
        let ghost old_pivots = pivots@;
        let ghost mut low: int = 0;
        proof {
            assert(rows@[r as int].wf(width, size));
            assert(row.equation(width) == eq);
            assert(eqs.take(r + 1) =~= done.push(eq));
            assert forall|i: int| 0 <= i < done.push(eq).len() implies (
            #[trigger] done.push(eq)[i]).shaped(width, size) by {
                assert(rows@[i].wf(width, size));
            }
        }
        loop
            invariant_except_break
                row.wf(width, size),
                row.cols@.len() > 0 ==> row.cols@[0].0 >= low,
                same_modulo(old_pivots, width, size, eq, row.equation(width)),
                pivots@ == old_pivots,
                are_pivots(old_pivots, is_free@, size),
            invariant
                width == n,
                n <= u32::MAX,
                is_free@.len() == n,
                0 <= low <= n,
                all_shaped(done.push(eq), width, size),
                old_pivots.len() == kept(done).len(),
                same_solutions(row_equations(old_pivots, width), kept(done), width, size),
            ensures
                is_free@.len() == n,
                are_pivots(pivots@, is_free@, size),
                pivots@.len() == kept(done.push(eq)).len(),
                same_solutions(row_equations(pivots@, width), kept(done.push(eq)), width, size),
            decreases n - low,
        {
            let j: u32 = match row.min_col() {
                Some(j) => j,
                None => {
                    proof {
                        assert forall|v: Seq<u8>| v.len() == width implies (#[trigger] in_kernel(
                            row_equations(old_pivots, width),
                            v,
                        ) <==> in_kernel(kept(done), v)) by {}
                        lemma_step_redundant(done, eq, old_pivots, width, size, row);
                    }
                    break ;
                },
            };
            let ghost current = row;
            proof {
                assert(row.cols@[0].0 < width);
                lemma_coef_present(row.cols@, 0);
            }
            match find_pivot(pivots.as_slice(), j) {
                Some(idx) => {
                    cancel(&mut row, &pivots[idx], j, Ghost(width), Ghost(size));
                    proof {
                        lemma_cancel_same(
                            old_pivots,
                            idx as int,
                            width,
                            size,
                            eq,
                            current.equation(width),
                            row.equation(width),
                            gf_div(coef(current.cols@, j as int), pivots@[idx as int].cols@[0].1),
                        );
                        low = j + 1;
                        if row.cols@.len() > 0 {
                            let c = row.cols@[0].0 as int;
                            lemma_coef_present(row.cols@, 0);
                            lemma_lead(current, width, size);
                            if c < j {
                                assert(coef(row.cols@, c) == coef(current.cols@, c));
                            }
                        }
                    }
                },
                None => {
                    proof {
                        let lead = lead_columns(old_pivots);
                        assert forall|k: int| 0 <= k < lead.len() implies #[trigger] lead[k]
                            != j by {
                            assert(old_pivots[k].cols@.len() > 0);
                        }
                        assert(is_free_column(lead, j as int));
                        assert(is_free@[j as int]);
                        assert forall|v: Seq<u8>| v.len() == width implies (#[trigger] in_kernel(
                            row_equations(old_pivots, width),
                            v,
                        ) <==> in_kernel(kept(done), v)) by {}
                        lemma_step_kept(done, eq, old_pivots, is_free@, size, row);
                        lemma_inverse(coef(row.cols@, j as int));
                    }
                    let normalized: Option<()> = row.normalize_pivot(j);
                    proof {
                        assert(normalized is Some);
                        lemma_coef_present(row.cols@, 0);
                        assert(row.rhs@ == row.equation(width).rhs);
                        lemma_new_pivot(old_pivots, is_free@, size, row);
                        lemma_new_pivot_same(
                            kept(done),
                            eq,
                            old_pivots,
                            width,
                            size,
                            current,
                            row,
                            gf_inverse(coef(current.cols@, j as int)),
                        );
                    }
                    is_free[j as usize] = false;
                    pivots.push(row);
                    break ;
                },
            }
        }
        r = r + 1;
    }
    proof {
        assert(eqs.take(r as int) =~= eqs);
    }
    (pivots, is_free)
}

} // verus!
