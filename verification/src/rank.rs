//! Counting equations against unknowns.

use crate::gf256::{
    gf_inverse, gf_mul, lemma_inverse, lemma_mul_associative, lemma_mul_commutative,
    lemma_mul_units, lemma_xor,
};
use crate::linear::{
    dot, in_kernel, lemma_dot_upto_add_scaled, lemma_dot_upto_agree, lemma_dot_upto_set,
    lemma_dot_upto_zero, trivial_kernel, Equation,
};
use crate::symbol::zero_bytes;
use vstd::prelude::*;

verus! {

/// All equations have `n` coefficients.
pub open spec fn all_wide(eqs: Seq<Equation>, n: nat) -> bool {
    forall|i: int| 0 <= i < eqs.len() ==> (#[trigger] eqs[i]).coefs.len() == n
}

/// `v` is a kernel vector other than zero that vanishes outside of `support`.
pub open spec fn kernel_witness(eqs: Seq<Equation>, n: nat, support: Set<int>, v: Seq<u8>) -> bool {
    &&& v.len() == n
    &&& in_kernel(eqs, v)
    &&& forall|c: int| 0 <= c < n && !support.contains(c) ==> #[trigger] v[c] == 0
    &&& exists|c: int| 0 <= c < n && #[trigger] v[c] != 0
}

/// What cancels column `j` of `eq` with the help of `pivot`.
spec fn cancelled(eq: Equation, pivot: Equation, j: int) -> Equation {
    eq.plus(pivot, gf_mul(eq.coefs[j], gf_inverse(pivot.coefs[j])))
}

/// Fewer equations than columns in the support leave a kernel vector other than zero.
proof fn lemma_kernel_in(eqs: Seq<Equation>, n: nat, support: Set<int>) -> (v: Seq<u8>)
    requires
        all_wide(eqs, n),
        support.finite(),
        forall|c: int| #[trigger] support.contains(c) ==> 0 <= c < n,
        eqs.len() < support.len(),
    ensures
        kernel_witness(eqs, n, support, v),
    decreases eqs.len(),
{
    if eqs.len() == 0 {
        let c = support.choose();
        assert(support.contains(c));
        let v = zero_bytes(n).update(c, 1);
        assert(v[c] != 0);
        v
    } else {
        let rest = eqs.drop_last();
        let pivot = eqs.last();
        assert(pivot == eqs[eqs.len() - 1]);
        assert forall|i: int| 0 <= i < rest.len() implies (#[trigger] rest[i]).coefs.len()
            == n by {
            assert(rest[i] == eqs[i]);
        }
        if forall|c: int| #[trigger] support.contains(c) ==> pivot.coefs[c] == 0 {
            let v = lemma_kernel_in(rest, n, support);
            assert forall|c: int| 0 <= c < n implies #[trigger] pivot.coefs[c] == 0 || v[c]
                == 0 by {
                assert(support.contains(c) || v[c] == 0);
            }
            lemma_dot_upto_zero(pivot.coefs, v, n);
            assert forall|i: int| 0 <= i < eqs.len() implies (#[trigger] eqs[i]).met(
                v,
                0,
                false,
            ) by {
                if i < rest.len() {
                    assert(rest[i].met(v, 0, false));
                }
            }
            v
        } else {
            let j = choose|j: int| #[trigger] support.contains(j) && pivot.coefs[j] != 0;
            let smaller = support.remove(j);
            let reduced = Seq::new(rest.len(), |i: int| cancelled(rest[i], pivot, j));
            let u = lemma_kernel_in(reduced, n, smaller);
            assert(!smaller.contains(j));
            assert(u[j] == 0);
            let p = pivot.coefs[j];
            let x = gf_mul(gf_inverse(p), dot(pivot.coefs, u));
            let v = u.update(j, x);
            lemma_pivot_met(pivot, u, j, n);
            assert forall|i: int| 0 <= i < eqs.len() implies (#[trigger] eqs[i]).met(
                v,
                0,
                false,
            ) by {
                if i < rest.len() {
                    assert(reduced[i].met(u, 0, false));
                    lemma_cancelled_met(rest[i], pivot, u, j, n);
                }
            }
            let c = choose|c: int| 0 <= c < n && #[trigger] u[c] != 0;
            assert(v[c] != 0);
            v
        }
    }
}

/// Column `j` can be chosen so that the pivot equation is met.
proof fn lemma_pivot_met(pivot: Equation, u: Seq<u8>, j: int, n: nat)
    requires
        pivot.coefs.len() == n,
        u.len() == n,
        0 <= j < n,
        pivot.coefs[j] != 0,
        u[j] == 0,
    ensures
        dot(
            pivot.coefs,
            u.update(j, gf_mul(gf_inverse(pivot.coefs[j]), dot(pivot.coefs, u))),
        ) == 0,
{
    let p = pivot.coefs[j];
    let d = dot(pivot.coefs, u);
    let x = gf_mul(gf_inverse(p), d);
    lemma_dot_upto_set(pivot.coefs, u, j, x, n);
    lemma_inverse(p);
    lemma_mul_associative(p, gf_inverse(p), d);
    lemma_mul_units(d);
    lemma_xor(d, 0, 0);
}

/// An equation whose cancelled form `u` meets is met once column `j` is chosen for the pivot.
proof fn lemma_cancelled_met(eq: Equation, pivot: Equation, u: Seq<u8>, j: int, n: nat)
    requires
        eq.coefs.len() == n,
        pivot.coefs.len() == n,
        u.len() == n,
        0 <= j < n,
        pivot.coefs[j] != 0,
        u[j] == 0,
        dot(cancelled(eq, pivot, j).coefs, u) == 0,
    ensures
        dot(eq.coefs, u.update(j, gf_mul(gf_inverse(pivot.coefs[j]), dot(pivot.coefs, u)))) == 0,
{
    let p = pivot.coefs[j];
    let d = dot(pivot.coefs, u);
    let x = gf_mul(gf_inverse(p), d);
    let v = u.update(j, x);
    let s = gf_mul(eq.coefs[j], gf_inverse(p));
    // eq + s * pivot has no column j, so it does not see the change of that column.
    let both = cancelled(eq, pivot, j).coefs;
    lemma_inverse(p);
    lemma_mul_associative(eq.coefs[j], gf_inverse(p), p);
    lemma_mul_commutative(gf_inverse(p), p);
    lemma_mul_units(eq.coefs[j]);
    lemma_xor(eq.coefs[j], 0, 0);
    assert(both[j] == 0);
    assert forall|c: int| 0 <= c < n implies #[trigger] both[c] == 0 || u[c] == v[c] by {}
    lemma_dot_upto_agree(both, u, v, n);
    lemma_dot_upto_add_scaled(eq.coefs, pivot.coefs, s, v, n);
    lemma_pivot_met(pivot, u, j, n);
    lemma_mul_units(s);
    lemma_xor(dot(eq.coefs, v), 0, 0);
}

/// A system with fewer equations than unknowns has a kernel vector other than zero.
pub proof fn lemma_fewer_equations(eqs: Seq<Equation>, n: nat)
    requires
        all_wide(eqs, n),
        eqs.len() < n,
    ensures
        !trivial_kernel(eqs, n),
{
    let support = vstd::set_lib::set_int_range(0, n as int);
    vstd::set_lib::lemma_int_range(0, n as int);
    let v = lemma_kernel_in(eqs, n, support);
    let c = choose|c: int| 0 <= c < n && #[trigger] v[c] != 0;
    assert(zero_bytes(n)[c] == 0);
}

} // verus!
