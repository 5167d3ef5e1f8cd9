//! Linear equations over GF(2^8) whose right-hand sides are symbols.
//!
//! An equation relates `n` unknown symbols. Symbols are combined position by position, so an
//! equation stands for one scalar equation at each byte position of its right-hand side.

use crate::gf256::{
    gf_mul, lemma_mul_associative, lemma_mul_commutative, lemma_mul_distributive, lemma_mul_units,
    lemma_no_zero_divisors, lemma_xor, lemma_xor_exchange,
};
use crate::symbol::{add_scaled, scaled, zero_bytes};
use vstd::prelude::*;

verus! {

/// The sum of `coefs[c] * v[c]` over the first `n` columns.
pub open spec fn dot_upto(coefs: Seq<u8>, v: Seq<u8>, n: nat) -> u8
    decreases n,
{
    if n == 0 {
        0
    } else {
        dot_upto(coefs, v, (n - 1) as nat) ^ gf_mul(coefs[n - 1], v[n - 1])
    }
}

/// The sum of `coefs[c] * v[c]` over all columns.
pub open spec fn dot(coefs: Seq<u8>, v: Seq<u8>) -> u8 {
    dot_upto(coefs, v, coefs.len())
}

/// The equation `sum of coefs[c] * X[c] == rhs` in the unknown symbols `X`.
pub struct Equation {
    pub coefs: Seq<u8>,
    pub rhs: Seq<u8>,
}

impl Equation {
    /// The equation speaks of `n` unknowns of `size` bytes.
    pub open spec fn shaped(self, n: nat, size: nat) -> bool {
        self.coefs.len() == n && self.rhs.len() == size
    }

    /// What the left-hand side has to be: the right-hand side at byte position `t` in the equation
    /// itself, zero in its homogeneous part.
    pub open spec fn target(self, t: int, affine: bool) -> u8 {
        if affine {
            self.rhs[t]
        } else {
            0
        }
    }

    /// `v` meets the equation at byte position `t`, or its homogeneous part.
    pub open spec fn met(self, v: Seq<u8>, t: int, affine: bool) -> bool {
        dot(self.coefs, v) == self.target(t, affine)
    }

    /// The difference between the two sides for `v`.
    pub open spec fn gap(self, v: Seq<u8>, t: int, affine: bool) -> u8 {
        dot(self.coefs, v) ^ self.target(t, affine)
    }

    /// This equation plus `scalar` times another.
    pub open spec fn plus(self, other: Equation, scalar: u8) -> Equation {
        Equation {
            coefs: add_scaled(self.coefs, other.coefs, scalar),
            rhs: add_scaled(self.rhs, other.rhs, scalar),
        }
    }

    /// This equation times `scalar`.
    pub open spec fn times(self, scalar: u8) -> Equation {
        Equation { coefs: scaled(self.coefs, scalar), rhs: scaled(self.rhs, scalar) }
    }
}

/// All equations speak of `n` unknowns of `size` bytes.
pub open spec fn all_shaped(eqs: Seq<Equation>, n: nat, size: nat) -> bool {
    forall|i: int| 0 <= i < eqs.len() ==> (#[trigger] eqs[i]).shaped(n, size)
}

/// `v` meets all equations at byte position `t`, or all their homogeneous parts.
pub open spec fn all_met(eqs: Seq<Equation>, v: Seq<u8>, t: int, affine: bool) -> bool {
    forall|i: int| 0 <= i < eqs.len() ==> (#[trigger] eqs[i]).met(v, t, affine)
}

/// `v` is in the kernel of the equations: it meets all their homogeneous parts.
pub open spec fn in_kernel(eqs: Seq<Equation>, v: Seq<u8>) -> bool {
    all_met(eqs, v, 0, false)
}

/// Only the zero vector of length `n` is in the kernel of the equations.
pub open spec fn trivial_kernel(eqs: Seq<Equation>, n: nat) -> bool {
    forall|v: Seq<u8>| v.len() == n && #[trigger] in_kernel(eqs, v) ==> v == zero_bytes(n)
}

/// The left-hand side of equation `i` depends on those of the equations before it: it vanishes on
/// their common kernel.
pub open spec fn redundant(eqs: Seq<Equation>, i: int) -> bool {
    forall|v: Seq<u8>|
        v.len() == eqs[i].coefs.len() && #[trigger] in_kernel(eqs.take(i), v) ==> dot(
            eqs[i].coefs,
            v,
        ) == 0
}

/// The equations that are not redundant, in order. Their number is the rank of the left-hand
/// sides.
pub open spec fn kept(eqs: Seq<Equation>) -> Seq<Equation>
    decreases eqs.len(),
{
    if eqs.len() == 0 {
        Seq::empty()
    } else if redundant(eqs, eqs.len() - 1) {
        kept(eqs.drop_last())
    } else {
        kept(eqs.drop_last()).push(eqs.last())
    }
}

/// The byte at position `t` of each symbol.
pub open spec fn slice_at(x: Seq<Seq<u8>>, t: int) -> Seq<u8> {
    Seq::new(x.len(), |c: int| x[c][t])
}

/// The symbols `x` meet the equations at each of `size` byte positions.
pub open spec fn solves(eqs: Seq<Equation>, x: Seq<Seq<u8>>, size: nat) -> bool {
    forall|t: int| 0 <= t < size ==> #[trigger] all_met(eqs, slice_at(x, t), t, true)
}

/// `x` holds `n` symbols of `size` bytes.
pub open spec fn symbols_shaped(x: Seq<Seq<u8>>, n: nat, size: nat) -> bool {
    &&& x.len() == n
    &&& forall|c: int| 0 <= c < n ==> (#[trigger] x[c]).len() == size
}

/// The symbol `sum of coefs[c] * x[c]`.
pub open spec fn combination(coefs: Seq<u8>, x: Seq<Seq<u8>>, size: nat) -> Seq<u8> {
    Seq::new(size, |t: int| dot(coefs, slice_at(x, t)))
}

// Sums of products.
pub proof fn lemma_dot_upto_add_scaled(a: Seq<u8>, b: Seq<u8>, s: u8, v: Seq<u8>, n: nat)
    requires
        n <= a.len(),
    ensures
        dot_upto(add_scaled(a, b, s), v, n) == dot_upto(a, v, n) ^ gf_mul(s, dot_upto(b, v, n)),
    decreases n,
{
    if n == 0 {
        lemma_mul_units(s);
        lemma_xor(0, 0, 0);
    } else {
        let m = (n - 1) as nat;
        lemma_dot_upto_add_scaled(a, b, s, v, m);
        let x = v[n - 1];
        let p = a[n - 1];
        let q = b[n - 1];
        lemma_mul_distributive(x, p, gf_mul(s, q));
        lemma_mul_associative(s, q, x);
        lemma_mul_distributive(s, dot_upto(b, v, m), gf_mul(q, x));
        lemma_xor_exchange(
            dot_upto(a, v, m),
            gf_mul(s, dot_upto(b, v, m)),
            gf_mul(p, x),
            gf_mul(s, gf_mul(q, x)),
        );
    }
}

pub proof fn lemma_dot_upto_scaled(a: Seq<u8>, s: u8, v: Seq<u8>, n: nat)
    requires
        n <= a.len(),
    ensures
        dot_upto(scaled(a, s), v, n) == gf_mul(s, dot_upto(a, v, n)),
    decreases n,
{
    if n == 0 {
        lemma_mul_units(s);
    } else {
        let m = (n - 1) as nat;
        lemma_dot_upto_scaled(a, s, v, m);
        lemma_mul_associative(s, a[n - 1], v[n - 1]);
        lemma_mul_distributive(s, dot_upto(a, v, m), gf_mul(a[n - 1], v[n - 1]));
    }
}

/// A sum of products is linear in the vector.
pub proof fn lemma_dot_upto_linear(coefs: Seq<u8>, v: Seq<u8>, w: Seq<u8>, scalar: u8, n: nat)
    requires
        n <= v.len(),
    ensures
        dot_upto(coefs, add_scaled(v, w, scalar), n) == dot_upto(coefs, v, n) ^ gf_mul(
            scalar,
            dot_upto(coefs, w, n),
        ),
    decreases n,
{
    if n == 0 {
        lemma_mul_units(scalar);
        lemma_xor(0, 0, 0);
    } else {
        let m = (n - 1) as nat;
        lemma_dot_upto_linear(coefs, v, w, scalar, m);
        let a = coefs[n - 1];
        let x = v[n - 1];
        let y = w[n - 1];
        // a (x + s y) = a x + s (a y)
        lemma_mul_distributive(a, x, gf_mul(scalar, y));
        lemma_mul_associative(a, scalar, y);
        lemma_mul_commutative(a, scalar);
        lemma_mul_associative(scalar, a, y);
        lemma_mul_distributive(scalar, dot_upto(coefs, w, m), gf_mul(a, y));
        lemma_xor_exchange(
            dot_upto(coefs, v, m),
            gf_mul(scalar, dot_upto(coefs, w, m)),
            gf_mul(a, x),
            gf_mul(scalar, gf_mul(a, y)),
        );
    }
}

/// Vectors that agree wherever a coefficient is not zero give the same sum.
pub proof fn lemma_dot_upto_agree(a: Seq<u8>, v: Seq<u8>, w: Seq<u8>, n: nat)
    requires
        forall|c: int| 0 <= c < n ==> #[trigger] a[c] == 0 || v[c] == w[c],
    ensures
        dot_upto(a, v, n) == dot_upto(a, w, n),
    decreases n,
{
    if n > 0 {
        lemma_dot_upto_agree(a, v, w, (n - 1) as nat);
        lemma_mul_units(v[n - 1]);
        lemma_mul_units(w[n - 1]);
        assert(a[n - 1] == 0 || v[n - 1] == w[n - 1]);
    }
}

/// A sum without a non-zero product is zero.
pub proof fn lemma_dot_upto_zero(a: Seq<u8>, v: Seq<u8>, n: nat)
    requires
        forall|c: int| 0 <= c < n ==> #[trigger] a[c] == 0 || v[c] == 0,
    ensures
        dot_upto(a, v, n) == 0,
    decreases n,
{
    if n > 0 {
        lemma_dot_upto_zero(a, v, (n - 1) as nat);
        lemma_mul_units(v[n - 1]);
        lemma_mul_units(a[n - 1]);
        lemma_xor(0, 0, 0);
        assert(a[n - 1] == 0 || v[n - 1] == 0);
    }
}

/// A sum with at most one non-zero product is that product.
pub proof fn lemma_dot_upto_single(a: Seq<u8>, v: Seq<u8>, j: int, n: nat)
    requires
        0 <= j < n,
        forall|c: int| 0 <= c < n && c != j ==> #[trigger] a[c] == 0 || v[c] == 0,
    ensures
        dot_upto(a, v, n) == gf_mul(a[j], v[j]),
    decreases n,
{
    let m = (n - 1) as nat;
    lemma_xor(gf_mul(a[j], v[j]), 0, 0);
    if j == n - 1 {
        lemma_dot_upto_zero(a, v, m);
    } else {
        lemma_dot_upto_single(a, v, j, m);
        lemma_mul_units(v[n - 1]);
        lemma_mul_units(a[n - 1]);
        assert(a[n - 1] == 0 || v[n - 1] == 0);
    }
}

/// Setting an entry that was zero adds one product to the sum.
pub proof fn lemma_dot_upto_set(a: Seq<u8>, v: Seq<u8>, j: int, x: u8, n: nat)
    requires
        0 <= j < n,
        n <= v.len(),
        v[j] == 0,
    ensures
        dot_upto(a, v.update(j, x), n) == dot_upto(a, v, n) ^ gf_mul(a[j], x),
    decreases n,
{
    let m = (n - 1) as nat;
    let w = v.update(j, x);
    if j == n - 1 {
        lemma_dot_upto_agree(a, v, w, m);
        lemma_mul_units(a[j]);
        lemma_xor(dot_upto(a, v, m), 0, 0);
    } else {
        lemma_dot_upto_set(a, v, j, x, m);
        let p = dot_upto(a, v, m);
        let q = gf_mul(a[j], x);
        let r = gf_mul(a[n - 1], v[n - 1]);
        lemma_xor(p, q, r);
        lemma_xor(q, r, 0);
        lemma_xor(p, r, q);
    }
}

// Operations on equations.
/// An equation is met where its sides do not differ.
pub proof fn lemma_met_gap(eq: Equation, v: Seq<u8>, t: int, affine: bool)
    ensures
        eq.met(v, t, affine) <==> eq.gap(v, t, affine) == 0,
{
    lemma_xor(dot(eq.coefs, v), eq.target(t, affine), 0);
    lemma_xor(eq.target(t, affine), 0, 0);
}

/// Adding a multiple of an equation that `v` meets leaves the gap for `v` as it is.
pub proof fn lemma_plus_gap(eq: Equation, other: Equation, s: u8, v: Seq<u8>, t: int, affine: bool)
    requires
        other.coefs.len() == eq.coefs.len(),
        affine ==> 0 <= t < eq.rhs.len(),
        other.met(v, t, affine),
    ensures
        eq.plus(other, s).gap(v, t, affine) == eq.gap(v, t, affine),
{
    lemma_dot_upto_add_scaled(eq.coefs, other.coefs, s, v, eq.coefs.len());
    let d = dot(eq.coefs, v);
    let r = eq.target(t, affine);
    let m = gf_mul(s, other.target(t, affine));
    lemma_mul_units(s);
    lemma_xor(r, 0, 0);
    lemma_xor(d, 0, 0);
    lemma_xor_exchange(d, m, r, m);
    lemma_xor(m, 0, 0);
    lemma_xor(d ^ r, 0, 0);
}

/// Multiplying an equation by a scalar that is not zero keeps its meaning.
pub proof fn lemma_times_met(eq: Equation, s: u8, v: Seq<u8>, t: int, affine: bool)
    requires
        s != 0,
        affine ==> 0 <= t < eq.rhs.len(),
    ensures
        eq.times(s).met(v, t, affine) <==> eq.met(v, t, affine),
{
    lemma_dot_upto_scaled(eq.coefs, s, v, eq.coefs.len());
    let d = dot(eq.coefs, v);
    let r = eq.target(t, affine);
    lemma_mul_units(s);
    lemma_mul_distributive(s, d, r);
    lemma_no_zero_divisors(s, d ^ r);
    lemma_xor(d, r, 0);
    lemma_xor(gf_mul(s, d), gf_mul(s, r), 0);
    lemma_xor(r, r, 0);
    lemma_xor(gf_mul(s, r), gf_mul(s, r), 0);
}

/// The equations that are kept are among the equations.
pub proof fn lemma_kept_members(eqs: Seq<Equation>)
    ensures
        kept(eqs).len() <= eqs.len(),
        forall|i: int| 0 <= i < kept(eqs).len() ==> eqs.contains(#[trigger] kept(eqs)[i]),
    decreases eqs.len(),
{
    if eqs.len() > 0 {
        let shorter = eqs.drop_last();
        lemma_kept_members(shorter);
        assert forall|i: int| 0 <= i < kept(eqs).len() implies eqs.contains(
            #[trigger] kept(eqs)[i],
        ) by {
            if i < kept(shorter).len() {
                assert(shorter.contains(kept(shorter)[i]));
                let j = choose|j: int| 0 <= j < shorter.len() && shorter[j] == kept(shorter)[i];
                assert(eqs[j] == kept(eqs)[i]);
            } else {
                assert(eqs[eqs.len() - 1] == kept(eqs)[i]);
            }
        }
    }
}

/// A vector meets a longer list of equations where it meets the shorter one and the last equation.
pub proof fn lemma_all_met_push(
    eqs: Seq<Equation>,
    eq: Equation,
    v: Seq<u8>,
    t: int,
    affine: bool,
)
    ensures
        all_met(eqs.push(eq), v, t, affine) <==> all_met(eqs, v, t, affine) && eq.met(v, t, affine),
{
    let longer = eqs.push(eq);
    if all_met(longer, v, t, affine) {
        assert forall|i: int| 0 <= i < eqs.len() implies (#[trigger] eqs[i]).met(
            v,
            t,
            affine,
        ) by {
            assert(longer[i] == eqs[i]);
        }
        assert(longer[eqs.len() as int] == eq);
    }
    if all_met(eqs, v, t, affine) && eq.met(v, t, affine) {
        assert forall|i: int| 0 <= i < longer.len() implies (#[trigger] longer[i]).met(
            v,
            t,
            affine,
        ) by {
            if i < eqs.len() {
                assert(longer[i] == eqs[i]);
            }
        }
    }
}

/// Dropping the redundant equations does not change the kernel.
pub proof fn lemma_kept_kernel(eqs: Seq<Equation>, v: Seq<u8>)
    requires
        forall|i: int| 0 <= i < eqs.len() ==> (#[trigger] eqs[i]).coefs.len() == v.len(),
    ensures
        in_kernel(kept(eqs), v) <==> in_kernel(eqs, v),
    decreases eqs.len(),
{
    if eqs.len() > 0 {
        let shorter = eqs.drop_last();
        let last = eqs.last();
        assert forall|i: int| 0 <= i < shorter.len() implies (#[trigger] shorter[i]).coefs.len()
            == v.len() by {
            assert(shorter[i] == eqs[i]);
        }
        lemma_kept_kernel(shorter, v);
        assert(eqs =~= shorter.push(last));
        lemma_all_met_push(shorter, last, v, 0, false);
        lemma_all_met_push(kept(shorter), last, v, 0, false);
        assert(eqs.take(eqs.len() - 1) =~= shorter);
        assert(eqs[eqs.len() - 1] == last);
    }
}

} // verus!
