//! What the small system over the free columns says about the whole system.

use crate::echelon::{is_free_column, lemma_determined, lemma_extends};
use crate::elimination::{
    all_wf, are_pivots, lead_columns, lemma_pivots_echelon, only_free, row_equations, same_modulo,
    same_solutions,
};
use crate::gf256::{gf_mul, lemma_mul_units, lemma_xor};
use crate::linear::{
    all_met, all_shaped, dot, in_kernel, kept, lemma_dot_upto_add_scaled, lemma_dot_upto_agree,
    lemma_dot_upto_single, lemma_dot_upto_zero, lemma_kept_kernel, lemma_met_gap, slice_at, solves,
    symbols_shaped, trivial_kernel, Equation,
};
use crate::octet::Octet;
use crate::reduced_system::{
    all_confined, columns_ok, confined, identity_upto, is_null_vector, lemma_solved_met,
};
use crate::sparse_row::{coef, lemma_coef_absent, SparseRow};
use crate::symbol::{add_scaled, zero_bytes, Symbol};
use vstd::prelude::*;

verus! {

/// The columns are the free ones, in increasing order.
pub open spec fn lists_free(columns: Seq<u32>, is_free: Seq<bool>) -> bool {
    &&& forall|i: int, j: int|
        0 <= i < j < columns.len() ==> #[trigger] columns[i] < #[trigger] columns[j]
    &&& forall|i: int|
        0 <= i < columns.len() ==> #[trigger] columns[i] < is_free.len()
            && is_free[columns[i] as int]
    &&& forall|c: int|
        0 <= c < is_free.len() && #[trigger] is_free[c] ==> exists|i: int|
            0 <= i < columns.len() && #[trigger] columns[i] == c
}

/// The projected rows are the equations with all pivot columns eliminated.
pub open spec fn are_projections(
    projected: Seq<SparseRow>,
    eqs: Seq<Equation>,
    pivots: Seq<SparseRow>,
    is_free: Seq<bool>,
    size: nat,
) -> bool {
    &&& projected.len() == eqs.len()
    &&& all_wf(projected, is_free.len(), size)
    &&& forall|i: int| 0 <= i < projected.len() ==> only_free(#[trigger] projected[i], is_free)
    &&& forall|i: int|
        0 <= i < projected.len() ==> same_modulo(
            pivots,
            is_free.len(),
            size,
            eqs[i],
            (#[trigger] projected[i]).equation(is_free.len()),
        )
}

/// The constraints are reduced to pivot rows, and the further equations to rows over the free
/// columns.
pub open spec fn is_reduction(
    constraints: Seq<Equation>,
    further: Seq<Equation>,
    pivots: Seq<SparseRow>,
    is_free: Seq<bool>,
    columns: Seq<u32>,
    projected: Seq<SparseRow>,
    size: nat,
) -> bool {
    &&& all_shaped(constraints, is_free.len(), size)
    &&& all_shaped(further, is_free.len(), size)
    &&& are_pivots(pivots, is_free, size)
    &&& same_solutions(
        row_equations(pivots, is_free.len()),
        kept(constraints),
        is_free.len(),
        size,
    )
    &&& lists_free(columns, is_free)
    &&& are_projections(projected, further, pivots, is_free, size)
}

/// Lists the free columns.
pub fn free_columns(is_free: &[bool]) -> (columns: Vec<u32>)
    requires
        is_free@.len() <= u32::MAX,
    ensures
        lists_free(columns@, is_free@),
{
    let mut columns: Vec<u32> = Vec::new();
    let mut c: usize = 0;
    while c < is_free.len()
        invariant
            c <= is_free@.len(),
            is_free@.len() <= u32::MAX,
            forall|i: int, j: int|
                0 <= i < j < columns@.len() ==> #[trigger] columns@[i] < #[trigger] columns@[j],
            forall|i: int|
                0 <= i < columns@.len() ==> #[trigger] columns@[i] < c
                    && is_free@[columns@[i] as int],
            forall|d: int|
                0 <= d < c && #[trigger] is_free@[d] ==> exists|i: int|
                    0 <= i < columns@.len() && #[trigger] columns@[i] == d,
        decreases is_free@.len() - c,
    {
        let ghost before = columns@;
        if is_free[c] {
            columns.push(c as u32);
            proof {
                assert(columns@[before.len() as int] == c);
                assert forall|d: int| 0 <= d < c + 1 && #[trigger] is_free@[d] implies exists|
                    i: int,
                | 0 <= i < columns@.len() && #[trigger] columns@[i] == d by {
                    if d < c {
                        let i = choose|i: int| 0 <= i < before.len() && #[trigger] before[i] == d;
                        assert(columns@[i] == d);
                    }
                }
            }
        }
        c = c + 1;
    }
    columns
}

/// Every column either leads one pivot row or is free.
pub proof fn lemma_free_count(
    pivots: Seq<SparseRow>,
    is_free: Seq<bool>,
    columns: Seq<u32>,
    size: nat,
)
    requires
        are_pivots(pivots, is_free, size),
        lists_free(columns, is_free),
    ensures
        pivots.len() + columns.len() == is_free.len(),
{
    let n = is_free.len() as int;
    let lead = lead_columns(pivots);
    let free = columns.map_values(|c: u32| c as int);
    assert forall|i: int| 0 <= i < lead.len() implies 0 <= #[trigger] lead[i] < n by {
        assert(pivots[i].wf(is_free.len(), size));
        assert(pivots[i].cols@.len() > 0);
        assert(pivots[i].cols@[0].0 < n);
    }
    assert(lead.no_duplicates()) by {
        assert forall|i: int, j: int| 0 <= i < lead.len() && 0 <= j < lead.len() && i != j implies
            lead[i] != lead[j] by {
            assert(pivots[i].cols@[0].0 != pivots[j].cols@[0].0);
        }
    }
    assert(free.no_duplicates()) by {
        assert forall|i: int, j: int| 0 <= i < free.len() && 0 <= j < free.len() && i != j implies
            free[i] != free[j] by {
            if i < j {
                assert(columns[i] < columns[j]);
            } else {
                assert(columns[j] < columns[i]);
            }
        }
    }
    lead.unique_seq_to_set();
    free.unique_seq_to_set();
    let all = vstd::set_lib::set_int_range(0, n);
    vstd::set_lib::lemma_int_range(0, n);
    assert forall|c: int| lead.to_set().contains(c) implies all.contains(c)
        && !free.to_set().contains(c) by {
        let i = choose|i: int| 0 <= i < lead.len() && lead[i] == c;
        assert(!is_free_column(lead, c));
        assert(!is_free[c]);
        if free.contains(c) {
            let j = choose|j: int| 0 <= j < free.len() && free[j] == c;
            assert(is_free[columns[j] as int]);
        }
    }
    assert forall|c: int| all.contains(c) && !lead.to_set().contains(c) implies
        free.to_set().contains(c) by {
        assert(is_free_column(lead, c)) by {
            assert forall|i: int| 0 <= i < lead.len() implies #[trigger] lead[i] != c by {
                assert(lead.contains(lead[i]));
            }
        }
        assert(is_free[c]);
        let j = choose|j: int| 0 <= j < columns.len() && #[trigger] columns[j] == c;
        assert(free[j] == c);
    }
    assert forall|c: int| free.to_set().contains(c) implies all.contains(c) by {
        let j = choose|j: int| 0 <= j < free.len() && free[j] == c;
        assert(columns[j] < n);
    }
    assert(lead.to_set() + free.to_set() =~= all);
    assert(lead.to_set().disjoint(free.to_set()));
    vstd::seq_lib::seq_to_set_is_finite(lead);
    vstd::seq_lib::seq_to_set_is_finite(free);
    vstd::set_lib::lemma_set_disjoint_lens(lead.to_set(), free.to_set());
}

/// Free columns are valid columns of the small system.
pub proof fn lemma_columns(columns: Seq<u32>, is_free: Seq<bool>)
    requires
        lists_free(columns, is_free),
    ensures
        columns_ok(columns, is_free.len()),
{
    assert forall|i: int, j: int|
        0 <= i < columns.len() && 0 <= j < columns.len() && i != j implies #[trigger] columns[i]
        != #[trigger] columns[j] by {
        if i < j {
            assert(columns[i] < columns[j]);
        } else {
            assert(columns[j] < columns[i]);
        }
    }
}

/// A row over free columns is confined to their list.
pub proof fn lemma_only_free_confined(
    row: SparseRow,
    is_free: Seq<bool>,
    columns: Seq<u32>,
    size: nat,
)
    requires
        row.wf(is_free.len(), size),
        only_free(row, is_free),
        lists_free(columns, is_free),
    ensures
        confined(row, columns),
{
    assert forall|k: int| 0 <= k < row.cols@.len() implies columns.contains(
        (#[trigger] row.cols@[k]).0,
    ) by {
        let c = row.cols@[k].0;
        assert(is_free[c as int]);
        let j = choose|j: int| 0 <= j < columns.len() && #[trigger] columns[j] == c as int;
        assert(columns[j] == c);
    }
}

/// Projected rows form a system over the free columns.
pub proof fn lemma_small_system(
    projected: Seq<SparseRow>,
    eqs: Seq<Equation>,
    pivots: Seq<SparseRow>,
    is_free: Seq<bool>,
    columns: Seq<u32>,
    size: nat,
)
    requires
        are_projections(projected, eqs, pivots, is_free, size),
        lists_free(columns, is_free),
    ensures
        columns_ok(columns, is_free.len()),
        all_confined(projected, columns),
{
    lemma_columns(columns, is_free);
    assert forall|i: int| 0 <= i < projected.len() implies confined(
        #[trigger] projected[i],
        columns,
    ) by {
        lemma_only_free_confined(projected[i], is_free, columns, size);
    }
}

/// A vector that meets the pivot rows meets the further equations exactly when it meets the
/// projected rows.
proof fn lemma_projection_met(
    projected: Seq<SparseRow>,
    eqs: Seq<Equation>,
    pivots: Seq<SparseRow>,
    is_free: Seq<bool>,
    size: nat,
    v: Seq<u8>,
    t: int,
    affine: bool,
)
    requires
        are_projections(projected, eqs, pivots, is_free, size),
        v.len() == is_free.len(),
        affine ==> 0 <= t < size,
        all_met(row_equations(pivots, is_free.len()), v, t, affine),
    ensures
        all_met(eqs, v, t, affine) <==> all_met(
            row_equations(projected, is_free.len()),
            v,
            t,
            affine,
        ),
{
    let n = is_free.len();
    let small = row_equations(projected, n);
    assert forall|i: int| 0 <= i < eqs.len() implies (eqs[i].met(v, t, affine) <==> small[i].met(
        v,
        t,
        affine,
    )) by {
        assert(same_modulo(pivots, n, size, eqs[i], projected[i].equation(n)));
        lemma_met_gap(eqs[i], v, t, affine);
        lemma_met_gap(small[i], v, t, affine);
    }
    if all_met(eqs, v, t, affine) {
        assert forall|i: int| 0 <= i < small.len() implies (#[trigger] small[i]).met(
            v,
            t,
            affine,
        ) by {
            assert(eqs[i].met(v, t, affine));
        }
    }
    if all_met(small, v, t, affine) {
        assert forall|i: int| 0 <= i < eqs.len() implies (#[trigger] eqs[i]).met(v, t, affine) by {
            assert(small[i].met(v, t, affine));
        }
    }
}

/// Both systems are met exactly when their concatenation is.
pub proof fn lemma_all_met_concat(
    a: Seq<Equation>,
    b: Seq<Equation>,
    v: Seq<u8>,
    t: int,
    affine: bool,
)
    ensures
        all_met(a + b, v, t, affine) <==> all_met(a, v, t, affine) && all_met(b, v, t, affine),
{
    let both = a + b;
    if all_met(both, v, t, affine) {
        assert forall|i: int| 0 <= i < a.len() implies (#[trigger] a[i]).met(v, t, affine) by {
            assert(both[i].met(v, t, affine));
        }
        assert forall|i: int| 0 <= i < b.len() implies (#[trigger] b[i]).met(v, t, affine) by {
            assert(both[a.len() + i].met(v, t, affine));
        }
    }
    if all_met(a, v, t, affine) && all_met(b, v, t, affine) {
        assert forall|i: int| 0 <= i < both.len() implies (#[trigger] both[i]).met(
            v,
            t,
            affine,
        ) by {
            if i < a.len() {
                assert(a[i].met(v, t, affine));
            } else {
                assert(b[i - a.len()].met(v, t, affine));
            }
        }
    }
}

/// Where the small system has a null vector, so has the whole system.
pub proof fn lemma_singular(
    constraints: Seq<Equation>,
    further: Seq<Equation>,
    pivots: Seq<SparseRow>,
    is_free: Seq<bool>,
    columns: Seq<u32>,
    projected: Seq<SparseRow>,
    size: nat,
    v: Seq<u8>,
)
    requires
        is_reduction(constraints, further, pivots, is_free, columns, projected, size),
        is_null_vector(v, projected, columns, is_free.len()),
    ensures
        !trivial_kernel(constraints + further, is_free.len()),
{
    let n = is_free.len();
    let eqs = row_equations(pivots, n);
    let lead = lead_columns(pivots);
    lemma_pivots_echelon(pivots, is_free, size);
    let u = lemma_extends(eqs, lead, v, 0, false);
    let small = row_equations(projected, n);
    assert forall|i: int| 0 <= i < small.len() implies (#[trigger] small[i]).met(u, 0, false) by {
        assert(small[i].met(v, 0, false));
        let coefs = small[i].coefs;
        assert(only_free(projected[i], is_free));
        assert forall|c: int| 0 <= c < n implies #[trigger] coefs[c] == 0 || u[c] == v[c] by {
            assert(coefs[c] == coef(projected[i].cols@, c));
            if is_free[c] {
                assert(is_free_column(lead, c));
            } else {
                lemma_coef_absent(projected[i].cols@, c);
            }
        }
        lemma_dot_upto_agree(coefs, u, v, n);
    }
    lemma_projection_met(projected, further, pivots, is_free, size, u, 0, false);
    assert(all_met(eqs, u, 0, false));
    assert(in_kernel(kept(constraints), u));
    lemma_kept_kernel(constraints, u);
    lemma_all_met_concat(constraints, further, u, 0, false);
    assert(in_kernel(constraints + further, u));
    let k = choose|k: int| 0 <= k < columns.len() && v[#[trigger] columns[k] as int] != 0;
    let c = columns[k] as int;
    assert(is_free[c]);
    assert(is_free_column(lead, c));
    assert(u[c] == v[c]);
    assert(u != zero_bytes(n)) by {
        assert(zero_bytes(n)[c] == 0);
    }
}

/// Where the small system has been solved, the whole system has a trivial kernel.
pub proof fn lemma_regular(
    constraints: Seq<Equation>,
    further: Seq<Equation>,
    pivots: Seq<SparseRow>,
    is_free: Seq<bool>,
    columns: Seq<u32>,
    projected: Seq<SparseRow>,
    solved: Seq<SparseRow>,
    size: nat,
)
    requires
        is_reduction(constraints, further, pivots, is_free, columns, projected, size),
        is_solved(solved, projected, columns, is_free.len(), size),
    ensures
        trivial_kernel(constraints + further, is_free.len()),
{
    let n = is_free.len();
    let eqs = row_equations(pivots, n);
    let lead = lead_columns(pivots);
    lemma_pivots_echelon(pivots, is_free, size);
    lemma_columns(columns, is_free);
    assert forall|u: Seq<u8>| u.len() == n && #[trigger] in_kernel(
        constraints + further,
        u,
    ) implies u == zero_bytes(n) by {
        lemma_all_met_concat(constraints, further, u, 0, false);
        lemma_kept_kernel(constraints, u);
        assert(all_met(eqs, u, 0, false));
        lemma_projection_met(projected, further, pivots, is_free, size, u, 0, false);
        assert(all_met(row_equations(solved, n), u, 0, false));
        lemma_solved_met(solved, columns, n, size, u, 0, false);
        let zero = zero_bytes(n);
        assert forall|i: int| 0 <= i < eqs.len() implies (#[trigger] eqs[i]).met(
            zero,
            0,
            false,
        ) by {
            lemma_dot_upto_zero(eqs[i].coefs, zero, n);
        }
        assert forall|d: int| 0 <= d < n && is_free_column(lead, d) implies #[trigger] u[d]
            == zero[d] by {
            assert(is_free[d]);
            let k = choose|k: int| 0 <= k < columns.len() && #[trigger] columns[k] == d;
            assert(u[columns[k] as int] == solved[k].equation(n).target(0, false));
        }
        lemma_determined(eqs, lead, u, zero, 0, false);
    }
}

/// The rows are the projected ones brought into the form of the identity matrix.
pub open spec fn is_solved(
    solved: Seq<SparseRow>,
    projected: Seq<SparseRow>,
    columns: Seq<u32>,
    n: nat,
    size: nat,
) -> bool {
    &&& solved.len() == projected.len()
    &&& solved.len() == columns.len()
    &&& all_wf(solved, n, size)
    &&& all_confined(solved, columns)
    &&& identity_upto(solved, columns, columns.len() as int)
    &&& same_solutions(row_equations(solved, n), row_equations(projected, n), n, size)
}

/// In every solution of the whole system the pivot rows are met, and the free columns hold the
/// right-hand sides of the solved rows.
pub proof fn lemma_solution_free(
    constraints: Seq<Equation>,
    further: Seq<Equation>,
    pivots: Seq<SparseRow>,
    is_free: Seq<bool>,
    columns: Seq<u32>,
    projected: Seq<SparseRow>,
    solved: Seq<SparseRow>,
    size: nat,
    v: Seq<u8>,
    t: int,
)
    requires
        is_reduction(constraints, further, pivots, is_free, columns, projected, size),
        is_solved(solved, projected, columns, is_free.len(), size),
        v.len() == is_free.len(),
        0 <= t < size,
    ensures
        all_met(kept(constraints) + further, v, t, true) <==> {
            &&& all_met(row_equations(pivots, is_free.len()), v, t, true)
            &&& forall|k: int|
                0 <= k < columns.len() ==> v[#[trigger] columns[k] as int] == solved[k].rhs@[t]
        },
{
    let n = is_free.len();
    lemma_columns(columns, is_free);
    lemma_all_met_concat(kept(constraints), further, v, t, true);
    assert(all_met(row_equations(pivots, n), v, t, true) <==> all_met(
        kept(constraints),
        v,
        t,
        true,
    ));
    if all_met(row_equations(pivots, n), v, t, true) {
        lemma_projection_met(projected, further, pivots, is_free, size, v, t, true);
        assert(all_met(row_equations(solved, n), v, t, true) <==> all_met(
            row_equations(projected, n),
            v,
            t,
            true,
        ));
        lemma_solved_met(solved, columns, n, size, v, t, true);
        assert forall|k: int| 0 <= k < columns.len() implies #[trigger] solved[k].equation(
            n,
        ).target(t, true) == solved[k].rhs@[t] by {}
    }
}

spec fn met_by(system: Seq<Equation>, n: nat, t: int, v: Seq<u8>) -> bool {
    v.len() == n && all_met(system, v, t, true)
}

/// Some vector that meets the system at byte position `t`.
spec fn solution_slice(system: Seq<Equation>, n: nat, t: int) -> Seq<u8> {
    choose|v: Seq<u8>| met_by(system, n, t, v)
}

/// The whole system has a solution.
pub proof fn lemma_solution_exists(
    constraints: Seq<Equation>,
    further: Seq<Equation>,
    pivots: Seq<SparseRow>,
    is_free: Seq<bool>,
    columns: Seq<u32>,
    projected: Seq<SparseRow>,
    solved: Seq<SparseRow>,
    size: nat,
) -> (x: Seq<Seq<u8>>)
    requires
        is_reduction(constraints, further, pivots, is_free, columns, projected, size),
        is_solved(solved, projected, columns, is_free.len(), size),
    ensures
        symbols_shaped(x, is_free.len(), size),
        solves(kept(constraints) + further, x, size),
{
    let n = is_free.len();
    let eqs = row_equations(pivots, n);
    let lead = lead_columns(pivots);
    let system = kept(constraints) + further;
    lemma_pivots_echelon(pivots, is_free, size);
    lemma_columns(columns, is_free);
    assert forall|t: int| 0 <= t < size implies met_by(
        system,
        n,
        t,
        #[trigger] solution_slice(system, n, t),
    ) by {
        let f = Seq::new(
            n,
            |c: int|
                if exists|k: int| 0 <= k < columns.len() && #[trigger] columns[k] == c {
                    let k = choose|k: int| 0 <= k < columns.len() && #[trigger] columns[k] == c;
                    solved[k].rhs@[t]
                } else {
                    0u8
                },
        );
        let v = lemma_extends(eqs, lead, f, t, true);
        assert forall|k: int| 0 <= k < columns.len() implies v[#[trigger] columns[k] as int]
            == solved[k].rhs@[t] by {
            let c = columns[k] as int;
            assert(is_free[c]);
            assert(is_free_column(lead, c));
            let l = choose|l: int| 0 <= l < columns.len() && #[trigger] columns[l] == c;
            assert(columns[l] == columns[k]);
            assert(l == k);
            assert(v[c] == f[c]);
        }
        lemma_solution_free(
            constraints,
            further,
            pivots,
            is_free,
            columns,
            projected,
            solved,
            size,
            v,
            t,
        );
        assert(met_by(system, n, t, v));
    }
    let x = Seq::new(n, |c: int| Seq::new(size, |t: int| solution_slice(system, n, t)[c]));
    assert forall|t: int| 0 <= t < size implies #[trigger] all_met(
        system,
        slice_at(x, t),
        t,
        true,
    ) by {
        let v = solution_slice(system, n, t);
        assert(met_by(system, n, t, v));
        assert(slice_at(x, t) =~= v);
    }
    x
}

/// The sum over the entries of a row, with the values of `v` in the columns.
spec fn sparse_dot(cols: Seq<(u32, u8)>, v: Seq<u8>) -> u8
    decreases cols.len(),
{
    if cols.len() == 0 {
        0
    } else {
        sparse_dot(cols.drop_last(), v) ^ gf_mul(cols.last().1, v[cols.last().0 as int])
    }
}

proof fn lemma_sparse_dot(cols: Seq<(u32, u8)>, v: Seq<u8>)
    requires
        forall|i: int| 0 <= i < cols.len() ==> (#[trigger] cols[i]).0 < v.len(),
    ensures
        dot(Seq::new(v.len(), |c: int| coef(cols, c)), v) == sparse_dot(cols, v),
    decreases cols.len(),
{
    let n = v.len();
    let coefs = Seq::new(n, |c: int| coef(cols, c));
    if cols.len() == 0 {
        lemma_dot_upto_zero(coefs, v, n);
    } else {
        let shorter = cols.drop_last();
        let (col, value) = cols.last();
        assert forall|i: int| 0 <= i < shorter.len() implies (#[trigger] shorter[i]).0 < n by {
            assert(shorter[i] == cols[i]);
        }
        lemma_sparse_dot(shorter, v);
        assert(cols[cols.len() - 1].0 < n);
        let rest = Seq::new(n, |c: int| coef(shorter, c));
        let unit = Seq::new(
            n,
            |c: int|
                if c == col {
                    1u8
                } else {
                    0u8
                },
        );
        lemma_mul_units(value);
        assert(coefs =~= add_scaled(rest, unit, value));
        lemma_dot_upto_add_scaled(rest, unit, value, v, n);
        lemma_dot_upto_single(unit, v, col as int, n);
        lemma_mul_units(v[col as int]);
    }
}

/// `v` holds, in the given columns, the bytes at position `t` of the given symbols.
pub open spec fn holds_values(v: Seq<u8>, columns: Seq<u32>, alpha: Seq<Symbol>, t: int) -> bool {
    forall|k: int| 0 <= k < columns.len() ==> v[#[trigger] columns[k] as int] == alpha[k]@[t]
}

/// The position of a column in the list.
fn column_position(columns: &[u32], column: u32) -> (k: usize)
    requires
        columns@.contains(column),
    ensures
        k < columns@.len(),
        columns@[k as int] == column,
{
    let mut k: usize = 0;
    while columns[k] != column
        invariant
            k < columns@.len(),
            columns@.contains(column),
            forall|i: int| 0 <= i < k ==> #[trigger] columns@[i] != column,
        decreases columns@.len() - k,
    {
        proof {
            let i = choose|i: int| 0 <= i < columns@.len() && columns@[i] == column;
            assert(i > k);
        }
        k = k + 1;
    }
    k
}

/// The gap of a row over the given columns for the values `alpha`: its right-hand side plus the sum
/// over its entries.
pub fn evaluate_row(
    row: SparseRow,
    columns: &[u32],
    alpha: &[Symbol],
    Ghost(n): Ghost<nat>,
) -> (symbol: Symbol)
    requires
        row.wf(n, row.rhs@.len()),
        columns_ok(columns@, n),
        confined(row, columns@),
        alpha@.len() == columns@.len(),
        forall|k: int| 0 <= k < alpha@.len() ==> (#[trigger] alpha@[k])@.len() == row.rhs@.len(),
    ensures
        symbol@.len() == row.rhs@.len(),
        forall|v: Seq<u8>, t: int|
            v.len() == n && 0 <= t < row.rhs@.len() && #[trigger] holds_values(
                v,
                columns@,
                alpha@,
                t,
            ) ==> symbol@[t] == row.equation(n).gap(v, t, true),
{
    let ghost size = row.rhs@.len();
    let ghost start = row.rhs@;
    let ghost cols = row.cols@;
    let entries: Vec<(u32, u8)> = row.cols;
    let mut symbol: Symbol = row.rhs;
    let mut i: usize = 0;
    proof {
        assert(cols.take(0) =~= Seq::<(u32, u8)>::empty());
        assert forall|v: Seq<u8>, t: int| 0 <= t < size && #[trigger] holds_values(
            v,
            columns@,
            alpha@,
            t,
        ) implies symbol@[t] == start[t] ^ sparse_dot(cols.take(0), v) by {
            lemma_xor(start[t], 0, 0);
        }
    }
    while i < entries.len()
        invariant
            i <= entries@.len(),
            entries@ == cols,
            cols == row.cols@,
            symbol@.len() == size,
            start.len() == size,
            confined(row, columns@),
            alpha@.len() == columns@.len(),
            forall|k: int| 0 <= k < alpha@.len() ==> (#[trigger] alpha@[k])@.len() == size,
            forall|v: Seq<u8>, t: int|
                0 <= t < size && #[trigger] holds_values(v, columns@, alpha@, t) ==> symbol@[t]
                    == start[t] ^ sparse_dot(cols.take(i as int), v),
        decreases entries@.len() - i,
    {
        let (col, coeff) = entries[i];
        proof {
            assert(columns@.contains(row.cols@[i as int].0));
        }
        let k: usize = column_position(columns, col);
        let ghost before = symbol@;
        if coeff == 1 {
            symbol.add_assign(&alpha[k]);
        } else {
            symbol.fused_addassign_mul_scalar(&alpha[k], &Octet::new(coeff));
        }
        proof {
            let done = cols.take(i as int);
            let next = cols.take(i + 1);
            assert(next.drop_last() =~= done);
            assert(next.last() == (col, coeff));
            assert forall|v: Seq<u8>, t: int| 0 <= t < size && #[trigger] holds_values(
                v,
                columns@,
                alpha@,
                t,
            ) implies symbol@[t] == start[t] ^ sparse_dot(next, v) by {
                assert(v[columns@[k as int] as int] == alpha@[k as int]@[t]);
                lemma_xor(start[t], sparse_dot(done, v), gf_mul(coeff, v[col as int]));
            }
        }
        i = i + 1;
    }
    proof {
        assert(cols.take(cols.len() as int) =~= cols);
        assert forall|v: Seq<u8>, t: int| v.len() == n && 0 <= t < size && #[trigger] holds_values(
            v,
            columns@,
            alpha@,
            t,
        ) implies symbol@[t] == row.equation(n).gap(v, t, true) by {
            lemma_sparse_dot(cols, v);
            assert(row.equation(n).coefs =~= Seq::new(v.len(), |c: int| coef(cols, c)));
            lemma_xor(start[t], sparse_dot(cols, v), 0);
        }
    }
    symbol
}

} // verus!
