//! The small system over the free columns.

use crate::elimination::{all_wf, row_equations, same_solutions};
use crate::gf256::{gf_inverse, gf_mul, lemma_inverse, lemma_mul_units, lemma_xor};
use crate::linear::{
    all_met, dot, in_kernel, lemma_dot_upto_set, lemma_dot_upto_single, lemma_dot_upto_zero,
    lemma_met_gap, lemma_plus_gap, lemma_times_met, Equation,
};
use crate::octet::Octet;
use crate::sparse_row::{coef, lemma_coef_absent, lemma_coef_present, SparseRow};
use vstd::prelude::*;

verus! {

/// The row has entries in the given columns only.
pub open spec fn confined(row: SparseRow, columns: Seq<u32>) -> bool {
    forall|i: int| 0 <= i < row.cols@.len() ==> columns.contains((#[trigger] row.cols@[i]).0)
}

/// All rows have entries in the given columns only.
pub open spec fn all_confined(rows: Seq<SparseRow>, columns: Seq<u32>) -> bool {
    forall|i: int| 0 <= i < rows.len() ==> confined(#[trigger] rows[i], columns)
}

/// The columns are distinct and below `n`.
pub open spec fn columns_ok(columns: Seq<u32>, n: nat) -> bool {
    &&& forall|i: int| 0 <= i < columns.len() ==> #[trigger] columns[i] < n
    &&& forall|i: int, j: int|
        0 <= i < columns.len() && 0 <= j < columns.len() && i != j ==> #[trigger] columns[i]
            != #[trigger] columns[j]
}

/// On the first `k` of the columns the rows are those of the identity matrix.
pub open spec fn identity_upto(rows: Seq<SparseRow>, columns: Seq<u32>, k: int) -> bool {
    forall|r: int, j: int|
        0 <= r < rows.len() && 0 <= j < k ==> #[trigger] coef(rows[r].cols@, columns[j] as int)
            == if r == j {
            1u8
        } else {
            0u8
        }
}

/// A vector in the kernel of the rows that is not zero on all of the given columns.
pub open spec fn is_null_vector(
    v: Seq<u8>,
    rows: Seq<SparseRow>,
    columns: Seq<u32>,
    n: nat,
) -> bool {
    &&& v.len() == n
    &&& in_kernel(row_equations(rows, n), v)
    &&& exists|k: int| 0 <= k < columns.len() && v[#[trigger] columns[k] as int] != 0
}

/// A row without an entry outside of the columns has coefficient zero there.
pub proof fn lemma_confined(row: SparseRow, columns: Seq<u32>, c: int)
    requires
        confined(row, columns),
        forall|k: int| 0 <= k < columns.len() ==> #[trigger] columns[k] != c,
    ensures
        coef(row.cols@, c) == 0,
{
    assert forall|i: int| 0 <= i < row.cols@.len() implies (#[trigger] row.cols@[i]).0 != c by {
        let k = choose|k: int| 0 <= k < columns.len() && columns[k] == row.cols@[i].0;
        assert(columns[k] != c);
    }
    lemma_coef_absent(row.cols@, c);
}

/// A row of the solved system gives the value of its column.
proof fn lemma_identity_row(
    solved: Seq<SparseRow>,
    columns: Seq<u32>,
    n: nat,
    size: nat,
    v: Seq<u8>,
    k: int,
)
    requires
        all_wf(solved, n, size),
        all_confined(solved, columns),
        columns_ok(columns, n),
        solved.len() == columns.len(),
        identity_upto(solved, columns, columns.len() as int),
        v.len() == n,
        0 <= k < columns.len(),
    ensures
        dot(solved[k].equation(n).coefs, v) == v[columns[k] as int],
{
    let coefs = solved[k].equation(n).coefs;
    let j = columns[k] as int;
    assert(columns[k] < n);
    assert(confined(solved[k], columns));
    assert forall|c: int| 0 <= c < n && c != j implies #[trigger] coefs[c] == 0 || v[c] == 0 by {
        assert(coefs[c] == coef(solved[k].cols@, c));
        if forall|i: int| 0 <= i < columns.len() ==> #[trigger] columns[i] != c {
            lemma_confined(solved[k], columns, c);
        } else {
            let i = choose|i: int| 0 <= i < columns.len() && #[trigger] columns[i] == c;
            assert(coef(solved[k].cols@, columns[i] as int) == 0);
        }
    }
    lemma_dot_upto_single(coefs, v, j, n);
    assert(coefs[j] == coef(solved[k].cols@, j));
    assert(coef(solved[k].cols@, columns[k] as int) == 1);
    lemma_mul_units(v[j]);
}

/// The solved system says that the free columns hold the right-hand sides.
pub proof fn lemma_solved_met(
    solved: Seq<SparseRow>,
    columns: Seq<u32>,
    n: nat,
    size: nat,
    v: Seq<u8>,
    t: int,
    affine: bool,
)
    requires
        all_wf(solved, n, size),
        all_confined(solved, columns),
        columns_ok(columns, n),
        solved.len() == columns.len(),
        identity_upto(solved, columns, columns.len() as int),
        v.len() == n,
    ensures
        all_met(row_equations(solved, n), v, t, affine) <==> forall|k: int|
            0 <= k < columns.len() ==> v[#[trigger] columns[k] as int] == solved[k].equation(
                n,
            ).target(t, affine),
{
    let eqs = row_equations(solved, n);
    assert forall|k: int| 0 <= k < columns.len() implies (eqs[k].met(v, t, affine)
        <==> v[#[trigger] columns[k] as int] == solved[k].equation(n).target(t, affine)) by {
        lemma_identity_row(solved, columns, n, size, v, k);
    }
    if all_met(eqs, v, t, affine) {
        assert forall|k: int| 0 <= k < columns.len() implies v[#[trigger] columns[k] as int]
            == solved[k].equation(n).target(t, affine) by {
            assert(eqs[k].met(v, t, affine));
        }
    }
    if forall|k: int|
        0 <= k < columns.len() ==> v[#[trigger] columns[k] as int] == solved[k].equation(n).target(
            t,
            affine,
        ) {
        assert forall|k: int| 0 <= k < eqs.len() implies (#[trigger] eqs[k]).met(
            v,
            t,
            affine,
        ) by {
            assert(v[columns[k] as int] == solved[k].equation(n).target(t, affine));
        }
    }
}

proof fn lemma_same_solutions_trans(
    a: Seq<Equation>,
    b: Seq<Equation>,
    c: Seq<Equation>,
    n: nat,
    size: nat,
)
    requires
        same_solutions(a, b, n, size),
        same_solutions(b, c, n, size),
    ensures
        same_solutions(a, c, n, size),
{
    assert forall|v: Seq<u8>, t: int, affine: bool|
        v.len() == n && (affine ==> 0 <= t < size) implies (#[trigger] all_met(a, v, t, affine)
        <==> all_met(c, v, t, affine)) by {
        assert(all_met(a, v, t, affine) <==> all_met(b, v, t, affine));
    }
}

/// Exchanging two equations keeps the solutions.
proof fn lemma_swap_same(eqs: Seq<Equation>, i: int, j: int, n: nat, size: nat)
    requires
        0 <= i < eqs.len(),
        0 <= j < eqs.len(),
    ensures
        same_solutions(eqs.update(i, eqs[j]).update(j, eqs[i]), eqs, n, size),
{
    let swapped = eqs.update(i, eqs[j]).update(j, eqs[i]);
    assert forall|v: Seq<u8>, t: int, affine: bool|
        v.len() == n && (affine ==> 0 <= t < size) implies (#[trigger] all_met(
        swapped,
        v,
        t,
        affine,
    ) <==> all_met(eqs, v, t, affine)) by {
        if all_met(swapped, v, t, affine) {
            assert(swapped[i].met(v, t, affine) && swapped[j].met(v, t, affine));
            assert forall|k: int| 0 <= k < eqs.len() implies (#[trigger] eqs[k]).met(
                v,
                t,
                affine,
            ) by {
                assert(swapped[k].met(v, t, affine));
            }
        }
        if all_met(eqs, v, t, affine) {
            assert(eqs[i].met(v, t, affine) && eqs[j].met(v, t, affine));
            assert forall|k: int| 0 <= k < swapped.len() implies (#[trigger] swapped[k]).met(
                v,
                t,
                affine,
            ) by {
                assert(eqs[k].met(v, t, affine));
            }
        }
    }
}

/// Replacing an equation by one that is met exactly where it is, once the others are met, keeps the
/// solutions.
proof fn lemma_replace_same(eqs: Seq<Equation>, i: int, eq: Equation, n: nat, size: nat)
    requires
        0 <= i < eqs.len(),
        forall|v: Seq<u8>, t: int, affine: bool|
            v.len() == n && (affine ==> 0 <= t < size) && (forall|k: int|
                0 <= k < eqs.len() && k != i ==> (#[trigger] eqs[k]).met(v, t, affine)) ==> (
            #[trigger] eq.met(v, t, affine) <==> eqs[i].met(v, t, affine)),
    ensures
        same_solutions(eqs.update(i, eq), eqs, n, size),
{
    let next = eqs.update(i, eq);
    assert forall|v: Seq<u8>, t: int, affine: bool|
        v.len() == n && (affine ==> 0 <= t < size) implies (#[trigger] all_met(next, v, t, affine)
        <==> all_met(eqs, v, t, affine)) by {
        if all_met(next, v, t, affine) {
            assert(next[i].met(v, t, affine));
            assert forall|k: int| 0 <= k < eqs.len() && k != i implies (#[trigger] eqs[k]).met(
                v,
                t,
                affine,
            ) by {
                assert(next[k].met(v, t, affine));
            }
            assert(eq.met(v, t, affine));
        }
        if all_met(eqs, v, t, affine) {
            assert(eqs[i].met(v, t, affine));
            assert(eq.met(v, t, affine));
            assert forall|k: int| 0 <= k < next.len() implies (#[trigger] next[k]).met(
                v,
                t,
                affine,
            ) by {
                assert(eqs[k].met(v, t, affine));
            }
        }
    }
}

/// Without a row to take as the next pivot, the rows have a kernel.
proof fn lemma_singular(rows: Seq<SparseRow>, columns: Seq<u32>, i: int, n: nat, size: nat) -> (v:
    Seq<u8>)
    requires
        all_wf(rows, n, size),
        rows.len() == columns.len(),
        columns_ok(columns, n),
        0 <= i < columns.len(),
        identity_upto(rows, columns, i),
        forall|r: int|
            i <= r < rows.len() ==> coef((#[trigger] rows[r]).cols@, columns[i] as int) == 0,
    ensures
        is_null_vector(v, rows, columns, n),
{
    let col = columns[i] as int;
    let pos = |c: int| choose|k: int| 0 <= k < i && #[trigger] columns[k] == c;
    let w = Seq::new(
        n,
        |c: int|
            if exists|k: int| 0 <= k < i && #[trigger] columns[k] == c {
                coef(rows[pos(c)].cols@, col)
            } else {
                0u8
            },
    );
    assert(w[col] == 0);
    assert forall|k: int| 0 <= k < i implies w[#[trigger] columns[k] as int] == coef(
        rows[k].cols@,
        col,
    ) by {
        let c = columns[k] as int;
        assert(columns[pos(c)] == c);
        assert(pos(c) == k);
    }
    let v = w.update(col, 1);
    let eqs = row_equations(rows, n);
    assert forall|r: int| 0 <= r < eqs.len() implies (#[trigger] eqs[r]).met(v, 0, false) by {
        let a = eqs[r].coefs;
        lemma_dot_upto_set(a, w, col, 1, n);
        lemma_mul_units(a[col]);
        if r < i {
            let own = columns[r] as int;
            assert forall|c: int| 0 <= c < n && c != own implies #[trigger] a[c] == 0 || w[c]
                == 0 by {
                if exists|k: int| 0 <= k < i && #[trigger] columns[k] == c {
                    let k = choose|k: int| 0 <= k < i && #[trigger] columns[k] == c;
                    assert(coef(rows[r].cols@, columns[k] as int) == 0u8);
                }
            }
            lemma_dot_upto_single(a, w, own, n);
            assert(coef(rows[r].cols@, columns[r] as int) == 1u8);
            lemma_mul_units(w[own]);
            lemma_xor(w[own], 0, 0);
        } else {
            assert forall|c: int| 0 <= c < n implies #[trigger] a[c] == 0 || w[c] == 0 by {
                if exists|k: int| 0 <= k < i && #[trigger] columns[k] == c {
                    let k = choose|k: int| 0 <= k < i && #[trigger] columns[k] == c;
                    assert(coef(rows[r].cols@, columns[k] as int) == 0u8);
                }
            }
            lemma_dot_upto_zero(a, w, n);
            assert(coef(rows[r].cols@, col) == 0);
            lemma_xor(0, 0, 0);
        }
    }
    assert(v[columns[i] as int] != 0);
    v
}

/// Cancels the column of the pivot row in all other rows.
fn clear_column(
    system: &mut Vec<SparseRow>,
    i: usize,
    col: u32,
    Ghost(columns): Ghost<Seq<u32>>,
    Ghost(n): Ghost<nat>,
    Ghost(size): Ghost<nat>,
)
    requires
        i < old(system)@.len(),
        old(system)@.len() == columns.len(),
        columns_ok(columns, n),
        col == columns[i as int],
        all_wf(old(system)@, n, size),
        all_confined(old(system)@, columns),
        identity_upto(old(system)@, columns, i as int),
        coef(old(system)@[i as int].cols@, col as int) == 1,
    ensures
        final(system)@.len() == old(system)@.len(),
        all_wf(final(system)@, n, size),
        all_confined(final(system)@, columns),
        identity_upto(final(system)@, columns, i + 1),
        same_solutions(
            row_equations(final(system)@, n),
            row_equations(old(system)@, n),
            n,
            size,
        ),
{
    let ghost before = system@;
    let pivot: SparseRow = system[i].clone();
    let ghost pivot_eq = before[i as int].equation(n);
    let mut r: usize = 0;
    proof {
        assert(before[i as int].wf(n, size));
        assert(pivot.equation(n) == pivot_eq);
        assert(confined(before[i as int], columns));
    }
    while r < system.len()
        invariant
            i < system@.len(),
            system@.len() == columns.len(),
            columns_ok(columns, n),
            col == columns[i as int],
            r <= system@.len(),
            pivot.wf(n, size),
            confined(pivot, columns),
            pivot.equation(n) == pivot_eq,
            coef(pivot.cols@, col as int) == 1,
            forall|j: int|
                0 <= j < i ==> coef(pivot.cols@, #[trigger] columns[j] as int) == 0u8,
            system@[i as int].equation(n) == pivot_eq,
            coef(system@[i as int].cols@, col as int) == 1,
            all_wf(system@, n, size),
            all_confined(system@, columns),
            identity_upto(system@, columns, i as int),
            forall|k: int|
                0 <= k < r && k != i ==> coef((#[trigger] system@[k]).cols@, col as int) == 0,
            same_solutions(row_equations(system@, n), row_equations(before, n), n, size),
        decreases system@.len() - r,
    {
        if r != i {
            let coeff: u8 = system[r].coeff_at(col);
            if coeff != 0 {
                let ghost current = system@;
                let scalar: Octet = Octet::new(coeff);
                let mut row: SparseRow = system[r].clone();
                proof {
                    assert(current[r as int].wf(n, size));
                    assert(confined(current[r as int], columns));
                }
                row.fma(&pivot, &scalar);
                proof {
                    lemma_row_update(
                        current,
                        r as int,
                        row,
                        pivot,
                        i as int,
                        coeff,
                        columns,
                        n,
                        size,
                    );
                    lemma_same_solutions_trans(
                        row_equations(current.update(r as int, row), n),
                        row_equations(current, n),
                        row_equations(before, n),
                        n,
                        size,
                    );
                }
                system[r] = row;
            }
        }
        r = r + 1;
    }
    proof {
        assert forall|k: int, j: int| 0 <= k < system@.len() && 0 <= j < i + 1 implies
            #[trigger] coef(system@[k].cols@, columns[j] as int) == if k == j {
            1u8
        } else {
            0u8
        } by {
            if j == i {
                assert(columns[j] == col);
                if k == i {
                    assert(coef(system@[i as int].cols@, col as int) == 1);
                } else {
                    assert(coef(system@[k].cols@, col as int) == 0);
                }
            }
        }
    }
}

/// Adding a multiple of the pivot row to another row clears the pivot column there and keeps the
/// rest of the state.
proof fn lemma_row_update(
    rows: Seq<SparseRow>,
    r: int,
    row: SparseRow,
    pivot: SparseRow,
    i: int,
    s: u8,
    columns: Seq<u32>,
    n: nat,
    size: nat,
)
    requires
        0 <= i < rows.len(),
        0 <= r < rows.len(),
        r != i,
        rows.len() == columns.len(),
        columns_ok(columns, n),
        all_wf(rows, n, size),
        all_confined(rows, columns),
        identity_upto(rows, columns, i),
        pivot.wf(n, size),
        confined(pivot, columns),
        pivot.equation(n) == rows[i].equation(n),
        coef(pivot.cols@, columns[i] as int) == 1,
        forall|j: int| 0 <= j < i ==> coef(pivot.cols@, #[trigger] columns[j] as int) == 0u8,
        s == coef(rows[r].cols@, columns[i] as int),
        row.canonical(),
        row.within(n),
        row.equation(n) == rows[r].equation(n).plus(pivot.equation(n), s),
    ensures
        all_wf(rows.update(r, row), n, size),
        all_confined(rows.update(r, row), columns),
        identity_upto(rows.update(r, row), columns, i),
        coef(row.cols@, columns[i] as int) == 0,
        same_solutions(
            row_equations(rows.update(r, row), n),
            row_equations(rows, n),
            n,
            size,
        ),
{
    let next = rows.update(r, row);
    let eqs = row_equations(rows, n);
    assert(rows[r].wf(n, size));
    assert(row.rhs@ == row.equation(n).rhs);
    assert forall|c: int| 0 <= c < n implies #[trigger] coef(row.cols@, c) == coef(
        rows[r].cols@,
        c,
    ) ^ gf_mul(s, coef(pivot.cols@, c)) by {
        assert(row.equation(n).coefs[c] == coef(row.cols@, c));
        assert(rows[r].equation(n).coefs[c] == coef(rows[r].cols@, c));
        assert(pivot.equation(n).coefs[c] == coef(pivot.cols@, c));
    }
    lemma_mul_units(s);
    lemma_xor(s, 0, 0);
    assert(columns[i] < n);
    assert(coef(row.cols@, columns[i] as int) == 0);
    assert forall|j: int| 0 <= j < i implies coef(row.cols@, #[trigger] columns[j] as int) == coef(
        rows[r].cols@,
        columns[j] as int,
    ) by {
        assert(columns[j] < n);
        lemma_xor(coef(rows[r].cols@, columns[j] as int), 0, 0);
    }
    assert forall|k: int| 0 <= k < next.len() implies (#[trigger] next[k]).wf(n, size) by {
        assert(rows[k].wf(n, size));
    }
    assert(confined(rows[r], columns));
    assert forall|k: int| 0 <= k < row.cols@.len() implies columns.contains(
        (#[trigger] row.cols@[k]).0,
    ) by {
        let c = row.cols@[k].0 as int;
        lemma_coef_present(row.cols@, k);
        lemma_xor(0, 0, 0);
        if forall|l: int| 0 <= l < columns.len() ==> #[trigger] columns[l] != c {
            lemma_confined(rows[r], columns, c);
            lemma_confined(pivot, columns, c);
        }
    }
    assert forall|k: int| 0 <= k < next.len() implies confined(#[trigger] next[k], columns) by {
        assert(confined(rows[k], columns));
    }
    assert forall|k: int, j: int| 0 <= k < next.len() && 0 <= j < i implies #[trigger] coef(
        next[k].cols@,
        columns[j] as int,
    ) == if k == j {
        1u8
    } else {
        0u8
    } by {
        assert(coef(rows[k].cols@, columns[j] as int) == if k == j {
            1u8
        } else {
            0u8
        });
    }
    assert(row_equations(next, n) =~= eqs.update(r, row.equation(n)));
    assert forall|v: Seq<u8>, t: int, affine: bool|
        v.len() == n && (affine ==> 0 <= t < size) && (forall|k: int|
            0 <= k < eqs.len() && k != r ==> (#[trigger] eqs[k]).met(v, t, affine)) implies (
    #[trigger] row.equation(n).met(v, t, affine) <==> eqs[r].met(v, t, affine)) by {
        assert(eqs[i].met(v, t, affine));
        lemma_plus_gap(eqs[r], eqs[i], s, v, t, affine);
        lemma_met_gap(eqs[r], v, t, affine);
        lemma_met_gap(row.equation(n), v, t, affine);
    }
    lemma_replace_same(eqs, r, row.equation(n), n, size);
}

/// The position that an exchange of `i` and `j` brings to position `k`.
spec fn exchanged(i: int, j: int, k: int) -> int {
    if k == i {
        j
    } else if k == j {
        i
    } else {
        k
    }
}

/// Exchanges two rows.
fn swap_rows(system: &mut Vec<SparseRow>, i: usize, j: usize)
    requires
        i < old(system)@.len(),
        j < old(system)@.len(),
    ensures
        final(system)@.len() == old(system)@.len(),
        forall|k: int|
            0 <= k < final(system)@.len() ==> {
                let source = exchanged(i as int, j as int, k);
                &&& (#[trigger] final(system)@[k]).cols@ == old(system)@[source].cols@
                &&& final(system)@[k].rhs@ == old(system)@[source].rhs@
            },
{
    let first: SparseRow = system[i].clone();
    let second: SparseRow = system[j].clone();
    system[i] = second;
    system[j] = first;
}

/// Solves the rows for the given columns by Gauss-Jordan elimination.
///
/// On success the rows have the same solutions as before and form the identity matrix on the
/// columns. `None` is returned exactly where the rows have a kernel on those columns.
pub fn solve_reduced(
    rows: Vec<SparseRow>,
    columns: &[u32],
    Ghost(n): Ghost<nat>,
    Ghost(size): Ghost<nat>,
) -> (solved: Option<Vec<SparseRow>>)
    requires
        all_wf(rows@, n, size),
        rows@.len() == columns@.len(),
        columns_ok(columns@, n),
        all_confined(rows@, columns@),
    ensures
        solved is None <==> exists|v: Seq<u8>| is_null_vector(v, rows@, columns@, n),
        solved matches Some(done) ==> {
            &&& done@.len() == rows@.len()
            &&& all_wf(done@, n, size)
            &&& all_confined(done@, columns@)
            &&& identity_upto(done@, columns@, columns@.len() as int)
            &&& same_solutions(row_equations(done@, n), row_equations(rows@, n), n, size)
        },
{
    let ghost start = rows@;
    let count: usize = rows.len();
    let mut system: Vec<SparseRow> = rows;
    let mut i: usize = 0;
    while i < count
        invariant
            i <= count,
            start == rows@,
            count == start.len(),
            system@.len() == count,
            columns@.len() == count,
            columns_ok(columns@, n),
            all_wf(system@, n, size),
            all_confined(system@, columns@),
            identity_upto(system@, columns@, i as int),
            same_solutions(row_equations(system@, n), row_equations(start, n), n, size),
        decreases count - i,
    {
        let col: u32 = columns[i];
        let mut pr: usize = i;
        while pr < count && system[pr].coeff_at(col) == 0
            invariant
                i <= pr <= count,
                system@.len() == count,
                all_wf(system@, n, size),
                forall|k: int|
                    i <= k < pr ==> coef((#[trigger] system@[k]).cols@, col as int) == 0,
            decreases count - pr,
        {
            pr = pr + 1;
        }
        if pr == count {
            proof {
                let v = lemma_singular(system@, columns@, i as int, n, size);
                assert(all_met(row_equations(system@, n), v, 0, false) <==> all_met(
                    row_equations(start, n),
                    v,
                    0,
                    false,
                ));
                assert(is_null_vector(v, start, columns@, n));
            }
            return None;
        }
        let ghost current = system@;
        swap_rows(&mut system, i, pr);
        let ghost swapped = system@;
        proof {
            assert forall|k: int| 0 <= k < swapped.len() implies (#[trigger] swapped[k]).wf(
                n,
                size,
            ) && confined(swapped[k], columns@) by {
                let source = exchanged(i as int, pr as int, k);
                assert(current[source].wf(n, size));
                assert(confined(current[source], columns@));
                assert(swapped[k].cols@ == current[source].cols@);
            }
            assert forall|k: int, j: int| 0 <= k < swapped.len() && 0 <= j < i implies
                #[trigger] coef(swapped[k].cols@, columns@[j] as int) == if k == j {
                1u8
            } else {
                0u8
            } by {
                let source = exchanged(i as int, pr as int, k);
                assert(swapped[k].cols@ == current[source].cols@);
                assert(coef(current[source].cols@, columns@[j] as int) == if source == j {
                    1u8
                } else {
                    0u8
                });
            }
            let eqs = row_equations(current, n);
            assert forall|k: int| 0 <= k < swapped.len() implies row_equations(
                swapped,
                n,
            )[k] == eqs.update(i as int, eqs[pr as int]).update(pr as int, eqs[i as int])[k] by {
                assert(swapped[k].cols@.len() >= 0);
            }
            assert(row_equations(swapped, n) =~= eqs.update(i as int, eqs[pr as int]).update(
                pr as int,
                eqs[i as int],
            ));
            lemma_swap_same(eqs, i as int, pr as int, n, size);
            lemma_same_solutions_trans(
                row_equations(swapped, n),
                eqs,
                row_equations(start, n),
                n,
                size,
            );
        }
        let mut row: SparseRow = system[i].clone();
        let ghost scale = gf_inverse(coef(swapped[i as int].cols@, col as int));
        proof {
            assert(coef(swapped[i as int].cols@, col as int) == coef(
                current[pr as int].cols@,
                col as int,
            ));
            lemma_inverse(coef(swapped[i as int].cols@, col as int));
            assert(swapped[i as int].wf(n, size));
        }
        let normalized: Option<()> = row.normalize_pivot(col);
        system[i] = row;
        proof {
            assert(normalized is Some);
            lemma_normalize_update(
                swapped,
                i as int,
                row,
                scale,
                columns@,
                n,
                size,
            );
            lemma_same_solutions_trans(
                row_equations(system@, n),
                row_equations(swapped, n),
                row_equations(start, n),
                n,
                size,
            );
        }
        let ghost ready = system@;
        clear_column(&mut system, i, col, Ghost(columns@), Ghost(n), Ghost(size));
        proof {
            lemma_same_solutions_trans(
                row_equations(system@, n),
                row_equations(ready, n),
                row_equations(start, n),
                n,
                size,
            );
        }
        i = i + 1;
    }
    proof {
        assert forall|v: Seq<u8>| !is_null_vector(v, start, columns@, n) by {
            if is_null_vector(v, start, columns@, n) {
                assert(all_met(row_equations(system@, n), v, 0, false));
                lemma_solved_met(system@, columns@, n, size, v, 0, false);
                let k = choose|k: int|
                    0 <= k < columns@.len() && v[#[trigger] columns@[k] as int] != 0;
                assert(v[columns@[k] as int] == system@[k].equation(n).target(0, false));
            }
        }
    }
    Some(system)
}

/// Normalizing the pivot row keeps the state of the elimination.
proof fn lemma_normalize_update(
    rows: Seq<SparseRow>,
    i: int,
    row: SparseRow,
    s: u8,
    columns: Seq<u32>,
    n: nat,
    size: nat,
)
    requires
        0 <= i < rows.len(),
        rows.len() == columns.len(),
        columns_ok(columns, n),
        all_wf(rows, n, size),
        all_confined(rows, columns),
        identity_upto(rows, columns, i),
        s != 0,
        row.canonical(),
        row.within(n),
        row.cols@.len() == rows[i].cols@.len(),
        forall|k: int|
            0 <= k < row.cols@.len() ==> (#[trigger] row.cols@[k]).0 == rows[i].cols@[k].0,
        row.equation(n) == rows[i].equation(n).times(s),
    ensures
        all_wf(rows.update(i, row), n, size),
        all_confined(rows.update(i, row), columns),
        identity_upto(rows.update(i, row), columns, i),
        same_solutions(
            row_equations(rows.update(i, row), n),
            row_equations(rows, n),
            n,
            size,
        ),
{
    let next = rows.update(i, row);
    let eqs = row_equations(rows, n);
    assert(rows[i].wf(n, size));
    assert(confined(rows[i], columns));
    assert(row.rhs@ == row.equation(n).rhs);
    assert forall|k: int| 0 <= k < next.len() implies (#[trigger] next[k]).wf(n, size) by {
        assert(rows[k].wf(n, size));
    }
    assert forall|k: int| 0 <= k < row.cols@.len() implies columns.contains(
        (#[trigger] row.cols@[k]).0,
    ) by {
        assert(rows[i].cols@[k].0 == row.cols@[k].0);
    }
    assert forall|k: int| 0 <= k < next.len() implies confined(#[trigger] next[k], columns) by {
        assert(confined(rows[k], columns));
    }
    assert forall|k: int, j: int| 0 <= k < next.len() && 0 <= j < i implies #[trigger] coef(
        next[k].cols@,
        columns[j] as int,
    ) == if k == j {
        1u8
    } else {
        0u8
    } by {
        assert(coef(rows[k].cols@, columns[j] as int) == if k == j {
            1u8
        } else {
            0u8
        });
        if k == i {
            let c = columns[j] as int;
            assert(columns[j] < n);
            assert(row.equation(n).coefs[c] == coef(row.cols@, c));
            assert(rows[i].equation(n).coefs[c] == coef(rows[i].cols@, c));
            lemma_mul_units(s);
        }
    }
    assert(row_equations(next, n) =~= eqs.update(i, row.equation(n)));
    assert forall|v: Seq<u8>, t: int, affine: bool|
        v.len() == n && (affine ==> 0 <= t < size) && (forall|k: int|
            0 <= k < eqs.len() && k != i ==> (#[trigger] eqs[k]).met(v, t, affine)) implies (
    #[trigger] row.equation(n).met(v, t, affine) <==> eqs[i].met(v, t, affine)) by {
        lemma_times_met(rows[i].equation(n), s, v, t, affine);
    }
    lemma_replace_same(eqs, i, row.equation(n), n, size);
}

} // verus!
