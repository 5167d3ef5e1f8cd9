//! Systems in echelon form: how solutions are determined by the free columns.

use crate::gf256::{lemma_mul_units, lemma_xor};
use crate::linear::{
    all_met, dot, dot_upto, in_kernel, lemma_dot_upto_agree, lemma_dot_upto_set,
    lemma_dot_upto_single, lemma_dot_upto_zero, Equation,
};
use crate::symbol::zero_bytes;
use vstd::prelude::*;

verus! {

/// Each equation has a leading column of its own, with coefficient one there and zero before.
pub open spec fn is_echelon(eqs: Seq<Equation>, lead: Seq<int>, n: nat) -> bool {
    &&& lead.len() == eqs.len()
    &&& forall|i: int|
        0 <= i < eqs.len() ==> {
            &&& (#[trigger] eqs[i]).coefs.len() == n
            &&& 0 <= lead[i] < n
            &&& eqs[i].coefs[lead[i]] == 1
        }
    &&& forall|i: int, c: int|
        0 <= i < eqs.len() && 0 <= c < lead[i] ==> #[trigger] eqs[i].coefs[c] == 0
    &&& forall|i: int, j: int|
        0 <= i < eqs.len() && 0 <= j < eqs.len() && i != j ==> #[trigger] lead[i]
            != #[trigger] lead[j]
}

/// Column `c` leads none of the equations.
pub open spec fn is_free_column(lead: Seq<int>, c: int) -> bool {
    forall|i: int| 0 <= i < lead.len() ==> #[trigger] lead[i] != c
}

/// The value of the leading column that makes `v`, which is zero there, meet the equation.
spec fn missing(eq: Equation, v: Seq<u8>, t: int, affine: bool) -> u8 {
    dot(eq.coefs, v) ^ eq.target(t, affine)
}

/// The solution whose free columns are those of `f`, filled in from column `c` on.
spec fn completion(
    eqs: Seq<Equation>,
    lead: Seq<int>,
    f: Seq<u8>,
    t: int,
    affine: bool,
    c: int,
) -> Seq<u8>
    decreases f.len() - c,
{
    if c >= f.len() {
        zero_bytes(f.len())
    } else {
        let w = completion(eqs, lead, f, t, affine, c + 1);
        if is_free_column(lead, c) {
            w.update(c, f[c])
        } else {
            let i = choose|i: int| 0 <= i < lead.len() && #[trigger] lead[i] == c;
            w.update(c, missing(eqs[i], w, t, affine))
        }
    }
}

proof fn lemma_completion(
    eqs: Seq<Equation>,
    lead: Seq<int>,
    f: Seq<u8>,
    t: int,
    affine: bool,
    c: int,
)
    requires
        is_echelon(eqs, lead, f.len()),
        0 <= c <= f.len(),
    ensures
        completion(eqs, lead, f, t, affine, c).len() == f.len(),
        forall|d: int|
            0 <= d < c ==> #[trigger] completion(eqs, lead, f, t, affine, c)[d] == 0,
        forall|d: int|
            c <= d < f.len() && is_free_column(lead, d) ==> #[trigger] completion(
                eqs,
                lead,
                f,
                t,
                affine,
                c,
            )[d] == f[d],
        forall|i: int|
            0 <= i < eqs.len() && c <= lead[i] ==> (#[trigger] eqs[i]).met(
                completion(eqs, lead, f, t, affine, c),
                t,
                affine,
            ),
    decreases f.len() - c,
{
    if c < f.len() {
        lemma_completion(eqs, lead, f, t, affine, c + 1);
        let w = completion(eqs, lead, f, t, affine, c + 1);
        let v = completion(eqs, lead, f, t, affine, c);
        assert(w[c] == 0);
        assert forall|i: int| 0 <= i < eqs.len() && c <= lead[i] implies (#[trigger] eqs[i]).met(
            v,
            t,
            affine,
        ) by {
            let x = v[c];
            assert(v == w.update(c, x));
            lemma_dot_upto_set(eqs[i].coefs, w, c, x, f.len());
            if lead[i] == c {
                assert(!is_free_column(lead, c));
                let j = choose|j: int| 0 <= j < lead.len() && #[trigger] lead[j] == c;
                assert(j == i);
                let d = dot(eqs[i].coefs, w);
                let r = eqs[i].target(t, affine);
                lemma_mul_units(x);
                lemma_xor(d, d, r);
                lemma_xor(r, 0, 0);
            } else {
                assert(eqs[i].coefs[c] == 0);
                lemma_mul_units(x);
                lemma_xor(dot(eqs[i].coefs, w), 0, 0);
            }
        }
    }
}

/// Every choice of the free columns extends to a solution.
pub proof fn lemma_extends(
    eqs: Seq<Equation>,
    lead: Seq<int>,
    f: Seq<u8>,
    t: int,
    affine: bool,
) -> (v: Seq<u8>)
    requires
        is_echelon(eqs, lead, f.len()),
    ensures
        v.len() == f.len(),
        forall|d: int| 0 <= d < f.len() && is_free_column(lead, d) ==> #[trigger] v[d] == f[d],
        all_met(eqs, v, t, affine),
{
    lemma_completion(eqs, lead, f, t, affine, 0);
    completion(eqs, lead, f, t, affine, 0)
}

proof fn lemma_completion_vanishes(
    eqs: Seq<Equation>,
    lead: Seq<int>,
    f: Seq<u8>,
    j: int,
    c: int,
)
    requires
        is_echelon(eqs, lead, f.len()),
        0 <= j < c <= f.len(),
        forall|d: int| j < d < f.len() ==> #[trigger] f[d] == 0,
    ensures
        completion(eqs, lead, f, 0, false, c) == zero_bytes(f.len()),
    decreases f.len() - c,
{
    if c < f.len() {
        lemma_completion_vanishes(eqs, lead, f, j, c + 1);
        let w = completion(eqs, lead, f, 0, false, c + 1);
        let v = completion(eqs, lead, f, 0, false, c);
        if !is_free_column(lead, c) {
            let i = choose|i: int| 0 <= i < lead.len() && #[trigger] lead[i] == c;
            lemma_dot_upto_zero(eqs[i].coefs, w, f.len());
            lemma_xor(0, 0, 0);
        }
        assert(v =~= zero_bytes(f.len()));
    }
}

/// An equation whose first column is free is independent of a system in echelon form: the kernel
/// of the system holds a vector on which its left-hand side does not vanish.
pub proof fn lemma_independent(
    eqs: Seq<Equation>,
    lead: Seq<int>,
    coefs: Seq<u8>,
    j: int,
) -> (v: Seq<u8>)
    requires
        is_echelon(eqs, lead, coefs.len()),
        0 <= j < coefs.len(),
        is_free_column(lead, j),
        coefs[j] != 0,
        forall|c: int| 0 <= c < j ==> #[trigger] coefs[c] == 0,
    ensures
        v.len() == coefs.len(),
        in_kernel(eqs, v),
        dot(coefs, v) != 0,
{
    let n = coefs.len();
    let f = zero_bytes(n).update(j, 1);
    lemma_completion(eqs, lead, f, 0, false, 0);
    let v = completion(eqs, lead, f, 0, false, 0);
    lemma_completion_vanishes(eqs, lead, f, j, j + 1);
    lemma_completion_suffix(eqs, lead, f, 0, false, j + 1, 0);
    assert(v[j] == f[j]);
    lemma_dot_upto_single(coefs, v, j, n);
    lemma_mul_units(coefs[j]);
    v
}

proof fn lemma_completion_suffix(
    eqs: Seq<Equation>,
    lead: Seq<int>,
    f: Seq<u8>,
    t: int,
    affine: bool,
    from: int,
    c: int,
)
    requires
        is_echelon(eqs, lead, f.len()),
        0 <= c <= from <= f.len(),
    ensures
        forall|d: int|
            from <= d < f.len() ==> #[trigger] completion(eqs, lead, f, t, affine, c)[d]
                == completion(eqs, lead, f, t, affine, from)[d],
    decreases from - c,
{
    if c < from {
        lemma_completion(eqs, lead, f, t, affine, c + 1);
        lemma_completion_suffix(eqs, lead, f, t, affine, from, c + 1);
    }
}

proof fn lemma_determined_from(
    eqs: Seq<Equation>,
    lead: Seq<int>,
    v: Seq<u8>,
    w: Seq<u8>,
    t: int,
    affine: bool,
    c: int,
)
    requires
        is_echelon(eqs, lead, v.len()),
        w.len() == v.len(),
        all_met(eqs, v, t, affine),
        all_met(eqs, w, t, affine),
        forall|d: int| 0 <= d < v.len() && is_free_column(lead, d) ==> #[trigger] v[d] == w[d],
        0 <= c <= v.len(),
    ensures
        forall|d: int| c <= d < v.len() ==> #[trigger] v[d] == w[d],
    decreases v.len() - c,
{
    if c < v.len() {
        lemma_determined_from(eqs, lead, v, w, t, affine, c + 1);
        if !is_free_column(lead, c) {
            let i = choose|i: int| 0 <= i < lead.len() && #[trigger] lead[i] == c;
            let a = eqs[i].coefs;
            let n = v.len();
            let v0 = v.update(c, 0);
            let w0 = w.update(c, 0);
            lemma_dot_upto_set(a, v0, c, v[c], n);
            lemma_dot_upto_set(a, w0, c, w[c], n);
            assert(v0.update(c, v[c]) =~= v);
            assert(w0.update(c, w[c]) =~= w);
            lemma_dot_upto_agree(a, v0, w0, n);
            lemma_mul_units(v[c]);
            lemma_mul_units(w[c]);
            let p = dot_upto(a, v0, n);
            lemma_xor(v[c], p, 0);
            lemma_xor(w[c], p, 0);
            lemma_xor(p, v[c], 0);
            lemma_xor(p, w[c], 0);
            assert(eqs[i].met(v, t, affine));
            assert(eqs[i].met(w, t, affine));
        }
    }
}

/// Two solutions that agree on the free columns are equal.
pub proof fn lemma_determined(
    eqs: Seq<Equation>,
    lead: Seq<int>,
    v: Seq<u8>,
    w: Seq<u8>,
    t: int,
    affine: bool,
)
    requires
        is_echelon(eqs, lead, v.len()),
        w.len() == v.len(),
        all_met(eqs, v, t, affine),
        all_met(eqs, w, t, affine),
        forall|d: int| 0 <= d < v.len() && is_free_column(lead, d) ==> #[trigger] v[d] == w[d],
    ensures
        v == w,
{
    lemma_determined_from(eqs, lead, v, w, t, affine, 0);
    assert(v =~= w);
}

} // verus!
