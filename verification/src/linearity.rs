//! The decoding is linear in what has arrived.

use crate::constraint_matrix::lt_coefs;
use crate::gf256::{lemma_mul_units, lemma_xor};
use crate::laws::{lemma_same_redundant, lemma_same_sources, same_coefs};
use crate::linear::{
    all_met, combination, kept, lemma_dot_upto_linear, lemma_kept_members, redundant, slice_at,
    symbols_shaped, Equation,
};
use crate::reception::{source_equations, Reception};
use crate::reduced::lemma_shapes;
use crate::sub_blocks::law_layout_linear;
use crate::symbol::{add_scaled, zero_bytes};
use crate::systematic_constants::{BlockParameters, CodeView};
use vstd::prelude::*;

verus! {

impl Reception {
    /// The same symbols have arrived as in `a` and in `b`, and each is the one in `a` plus `scalar`
    /// times the one in `b`.
    pub open spec fn is_sum(self, a: Reception, b: Reception, scalar: u8) -> bool {
        &&& self.same_arrivals(a)
        &&& self.same_arrivals(b)
        &&& self.symbol_size == a.symbol_size
        &&& self.symbol_size == b.symbol_size
        &&& forall|i: int|
            0 <= i < self.sources.len() && (#[trigger] self.sources[i]) is Some
                ==> self.sources[i]->0 == add_scaled(
                a.sources[i]->0,
                b.sources[i]->0,
                scalar,
            )
        &&& forall|i: int|
            0 <= i < self.repairs.len() ==> (#[trigger] self.repairs[i]).1 == add_scaled(
                a.repairs[i].1,
                b.repairs[i].1,
                scalar,
            )
    }
}

/// The three systems have the same left-hand sides, and the right-hand sides of `c` are those of
/// `a` plus `scalar` times those of `b`.
spec fn sums(c: Seq<Equation>, a: Seq<Equation>, b: Seq<Equation>, scalar: u8) -> bool {
    &&& same_coefs(c, a)
    &&& same_coefs(c, b)
    &&& forall|i: int|
        0 <= i < c.len() ==> (#[trigger] c[i]).rhs == add_scaled(a[i].rhs, b[i].rhs, scalar)
}

proof fn lemma_sums_concat(
    c: Seq<Equation>,
    a: Seq<Equation>,
    b: Seq<Equation>,
    f: Seq<Equation>,
    d: Seq<Equation>,
    e: Seq<Equation>,
    scalar: u8,
)
    requires
        sums(c, a, b, scalar),
        sums(f, d, e, scalar),
    ensures
        sums(c + f, a + d, b + e, scalar),
{
    let (p, q, r) = (c + f, a + d, b + e);
    assert forall|i: int| 0 <= i < p.len() implies {
        &&& (#[trigger] p[i]).coefs == q[i].coefs
        &&& p[i].coefs == r[i].coefs
        &&& p[i].rhs == add_scaled(q[i].rhs, r[i].rhs, scalar)
    } by {
        if i < c.len() {
            assert(p[i] == c[i]);
        } else {
            assert(p[i] == f[i - c.len()]);
        }
    }
}

proof fn lemma_sums_push(
    c: Seq<Equation>,
    a: Seq<Equation>,
    b: Seq<Equation>,
    f: Equation,
    d: Equation,
    e: Equation,
    scalar: u8,
)
    requires
        sums(c, a, b, scalar),
        f.coefs == d.coefs,
        f.coefs == e.coefs,
        f.rhs == add_scaled(d.rhs, e.rhs, scalar),
    ensures
        sums(c.push(f), a.push(d), b.push(e), scalar),
{
    let (p, q, r) = (c.push(f), a.push(d), b.push(e));
    assert forall|i: int| 0 <= i < p.len() implies {
        &&& (#[trigger] p[i]).coefs == q[i].coefs
        &&& p[i].coefs == r[i].coefs
        &&& p[i].rhs == add_scaled(q[i].rhs, r[i].rhs, scalar)
    } by {
        if i < c.len() {
            assert(p[i] == c[i]);
        }
    }
}

/// The same equations are kept of all three systems.
proof fn lemma_sums_kept(c: Seq<Equation>, a: Seq<Equation>, b: Seq<Equation>, scalar: u8)
    requires
        sums(c, a, b, scalar),
    ensures
        sums(kept(c), kept(a), kept(b), scalar),
    decreases c.len(),
{
    if c.len() > 0 {
        let i = c.len() - 1;
        let (p, q, r) = (c.drop_last(), a.drop_last(), b.drop_last());
        assert forall|k: int| 0 <= k < p.len() implies {
            &&& (#[trigger] p[k]).coefs == q[k].coefs
            &&& p[k].coefs == r[k].coefs
            &&& p[k].rhs == add_scaled(q[k].rhs, r[k].rhs, scalar)
        } by {
            assert(p[k] == c[k]);
        }
        lemma_sums_kept(p, q, r, scalar);
        assert(c[i].coefs == a[i].coefs && c[i].coefs == b[i].coefs);
        assert(same_coefs(a, c)) by {
            assert forall|k: int| 0 <= k < a.len() implies (#[trigger] a[k]).coefs
                == c[k].coefs by {
                assert(c[k].coefs == a[k].coefs);
            }
        }
        assert(same_coefs(b, c)) by {
            assert forall|k: int| 0 <= k < b.len() implies (#[trigger] b[k]).coefs
                == c[k].coefs by {
                assert(c[k].coefs == b[k].coefs);
            }
        }
        if redundant(c, i) {
            lemma_same_redundant(c, a, i);
            lemma_same_redundant(c, b, i);
        }
        if redundant(a, i) {
            lemma_same_redundant(a, c, i);
        }
        if redundant(b, i) {
            lemma_same_redundant(b, c, i);
        }
        assert(c.last() == c[i]);
        lemma_sums_push(kept(p), kept(q), kept(r), c.last(), a.last(), b.last(), scalar);
    }
}

proof fn lemma_source_sums(
    code: CodeView,
    params: BlockParameters,
    c: Seq<Option<Seq<u8>>>,
    a: Seq<Option<Seq<u8>>>,
    b: Seq<Option<Seq<u8>>>,
    scalar: u8,
)
    requires
        c.len() == a.len(),
        c.len() == b.len(),
        forall|i: int|
            0 <= i < c.len() ==> ((#[trigger] c[i]) is Some <==> a[i] is Some) && (c[i] is Some
                <==> b[i] is Some),
        forall|i: int|
            0 <= i < c.len() && (#[trigger] c[i]) is Some ==> c[i]->0 == add_scaled(
                a[i]->0,
                b[i]->0,
                scalar,
            ),
    ensures
        sums(
            source_equations(code, params, c),
            source_equations(code, params, a),
            source_equations(code, params, b),
            scalar,
        ),
    decreases c.len(),
{
    if c.len() > 0 {
        let last = c.len() - 1;
        let (p, q, r) = (c.drop_last(), a.drop_last(), b.drop_last());
        assert forall|i: int| 0 <= i < p.len() implies ((#[trigger] p[i]) is Some <==> q[i] is Some)
            && (p[i] is Some <==> r[i] is Some) && (p[i] is Some ==> p[i]->0 == add_scaled(
            q[i]->0,
            r[i]->0,
            scalar,
        )) by {
            assert(p[i] == c[i]);
        }
        lemma_source_sums(code, params, p, q, r, scalar);
        assert(c[last] is Some <==> a[last] is Some);
        if c.last() is Some {
            let coefs = lt_coefs(code, params, last);
            lemma_sums_push(
                source_equations(code, params, p),
                source_equations(code, params, q),
                source_equations(code, params, r),
                Equation { coefs, rhs: c.last()->0 },
                Equation { coefs, rhs: a.last()->0 },
                Equation { coefs, rhs: b.last()->0 },
                scalar,
            );
        }
    }
}

/// A sum of zeros is zero.
proof fn lemma_zero_sum(size: nat, scalar: u8)
    ensures
        zero_bytes(size) == add_scaled(zero_bytes(size), zero_bytes(size), scalar),
{
    lemma_mul_units(scalar);
    lemma_xor(0, 0, 0);
    assert(zero_bytes(size) =~= add_scaled(zero_bytes(size), zero_bytes(size), scalar));
}

proof fn lemma_system_sums(c: Reception, a: Reception, b: Reception, scalar: u8)
    requires
        c.is_sum(a, b, scalar),
        c.lost().len() <= c.repairs.len(),
    ensures
        a.lost() == c.lost(),
        b.lost() == c.lost(),
        sums(c.system(), a.system(), b.system(), scalar),
{
    lemma_zero_sum(c.symbol_size, scalar);
    lemma_same_sources(c.code, c.params(), c.sources, a.sources);
    lemma_same_sources(c.code, c.params(), c.sources, b.sources);
    lemma_source_sums(c.code, c.params(), c.sources, a.sources, b.sources, scalar);
    let (c0, a0, b0) = (
        source_equations(c.code, c.params(), c.sources),
        source_equations(a.code, a.params(), a.sources),
        source_equations(b.code, b.params(), b.sources),
    );
    let (c1, a1, b1) = (c.padding_equations(), a.padding_equations(), b.padding_equations());
    let (c2, a2, b2) = (c.ldpc_equations(), a.ldpc_equations(), b.ldpc_equations());
    let (c3, a3, b3) = (c.hdpc_equations(), a.hdpc_equations(), b.hdpc_equations());
    assert(sums(c1, a1, b1, scalar));
    assert(sums(c2, a2, b2, scalar));
    assert(sums(c3, a3, b3, scalar));
    lemma_sums_concat(c0, a0, b0, c1, a1, b1, scalar);
    lemma_sums_concat(c0 + c1, a0 + a1, b0 + b1, c2, a2, b2, scalar);
    lemma_sums_concat(c0 + c1 + c2, a0 + a1 + a2, b0 + b1 + b2, c3, a3, b3, scalar);
    lemma_sums_kept(c.constraints(), a.constraints(), b.constraints(), scalar);
    let (c4, a4, b4) = (c.repair_equations(), a.repair_equations(), b.repair_equations());
    assert forall|i: int| 0 <= i < c4.len() implies {
        &&& (#[trigger] c4[i]).coefs == a4[i].coefs
        &&& c4[i].coefs == b4[i].coefs
        &&& c4[i].rhs == add_scaled(a4[i].rhs, b4[i].rhs, scalar)
    } by {
        assert(c.repairs[i].0 == a.repairs[i].0 && c.repairs[i].0 == b.repairs[i].0);
    }
    lemma_sums_concat(
        kept(c.constraints()),
        kept(a.constraints()),
        kept(b.constraints()),
        c4,
        a4,
        b4,
        scalar,
    );
}

/// The symbols `x` plus `scalar` times the symbols `y`.
pub open spec fn symbols_sum(x: Seq<Seq<u8>>, y: Seq<Seq<u8>>, scalar: u8) -> Seq<Seq<u8>> {
    Seq::new(x.len(), |c: int| add_scaled(x[c], y[c], scalar))
}

proof fn lemma_slice_sum(x: Seq<Seq<u8>>, y: Seq<Seq<u8>>, n: nat, size: nat, scalar: u8, t: int)
    requires
        symbols_shaped(x, n, size),
        symbols_shaped(y, n, size),
        0 <= t < size,
    ensures
        slice_at(symbols_sum(x, y, scalar), t) == add_scaled(
            slice_at(x, t),
            slice_at(y, t),
            scalar,
        ),
{
    let z = symbols_sum(x, y, scalar);
    assert forall|c: int| 0 <= c < n implies slice_at(z, t)[c] == #[trigger] add_scaled(
        slice_at(x, t),
        slice_at(y, t),
        scalar,
    )[c] by {
        assert(x[c].len() == size);
        assert(z[c] == add_scaled(x[c], y[c], scalar));
    }
    assert(slice_at(z, t) =~= add_scaled(slice_at(x, t), slice_at(y, t), scalar));
}

proof fn lemma_combination_sum(
    coefs: Seq<u8>,
    x: Seq<Seq<u8>>,
    y: Seq<Seq<u8>>,
    n: nat,
    size: nat,
    scalar: u8,
)
    requires
        coefs.len() == n,
        symbols_shaped(x, n, size),
        symbols_shaped(y, n, size),
    ensures
        combination(coefs, symbols_sum(x, y, scalar), size) == add_scaled(
            combination(coefs, x, size),
            combination(coefs, y, size),
            scalar,
        ),
{
    let z = symbols_sum(x, y, scalar);
    let sum = add_scaled(combination(coefs, x, size), combination(coefs, y, size), scalar);
    assert forall|t: int| 0 <= t < size implies combination(coefs, z, size)[t]
        == #[trigger] sum[t] by {
        lemma_slice_sum(x, y, n, size, scalar, t);
        lemma_dot_upto_linear(coefs, slice_at(x, t), slice_at(y, t), scalar, n);
    }
    assert(combination(coefs, z, size) =~= sum);
}

proof fn lemma_system_shaped(rec: Reception, i: int)
    requires
        rec.sized(),
        0 <= i < rec.system().len(),
    ensures
        rec.system()[i].shaped(rec.width(), rec.symbol_size),
{
    lemma_shapes(rec);
    let constraints = rec.constraints();
    let eqs = kept(constraints);
    if i < eqs.len() {
        lemma_kept_members(constraints);
        assert(constraints.contains(eqs[i]));
        let j = choose|j: int| 0 <= j < constraints.len() && constraints[j] == eqs[i];
        assert(constraints[j].shaped(rec.width(), rec.symbol_size));
    } else {
        assert(rec.system()[i] == rec.repair_equations()[i - eqs.len()]);
    }
}

/// The sum of solutions solves the sum of the systems.
pub proof fn law_solutions_add(
    c: Reception,
    a: Reception,
    b: Reception,
    scalar: u8,
    x: Seq<Seq<u8>>,
    y: Seq<Seq<u8>>,
)
    requires
        c.is_sum(a, b, scalar),
        c.lost().len() <= c.repairs.len(),
        a.sized(),
        a.is_solution(x),
        b.is_solution(y),
    ensures
        c.is_solution(symbols_sum(x, y, scalar)),
{
    let n = c.width();
    let size = c.symbol_size;
    let z = symbols_sum(x, y, scalar);
    lemma_system_sums(c, a, b, scalar);
    let system = c.system();
    assert forall|i: int| 0 <= i < n implies (#[trigger] z[i]).len() == size by {
        assert(x[i].len() == size);
    }
    assert forall|t: int| 0 <= t < size implies #[trigger] all_met(
        system,
        slice_at(z, t),
        t,
        true,
    ) by {
        let v = slice_at(x, t);
        let w = slice_at(y, t);
        lemma_slice_sum(x, y, n, size, scalar, t);
        assert(all_met(a.system(), v, t, true));
        assert(all_met(b.system(), w, t, true));
        assert forall|i: int| 0 <= i < system.len() implies (#[trigger] system[i]).met(
            slice_at(z, t),
            t,
            true,
        ) by {
            let (p, q) = (a.system()[i], b.system()[i]);
            assert(p.met(v, t, true) && q.met(w, t, true));
            assert(system[i].coefs == p.coefs && system[i].coefs == q.coefs);
            lemma_system_shaped(a, i);
            lemma_dot_upto_linear(p.coefs, v, w, scalar, n);
            assert(system[i].rhs == add_scaled(p.rhs, q.rhs, scalar));
        }
    }
}

/// The decoding is linear: where the symbols that arrive are those of one block plus a multiple of
/// those of another, so is the block that is decoded.
pub proof fn law_decoding_linear(
    c: Reception,
    a: Reception,
    b: Reception,
    scalar: u8,
    block_c: Seq<u8>,
    block_a: Seq<u8>,
    block_b: Seq<u8>,
    sub_blocks: int,
    alignment: int,
)
    requires
        c.is_sum(a, b, scalar),
        c.lost().len() <= c.repairs.len(),
        0 <= c.block_symbols <= c.sources.len(),
        a.sized(),
        b.sized(),
        0 < sub_blocks,
        0 < alignment,
        a.decodes_to(block_a, sub_blocks, alignment),
        b.decodes_to(block_b, sub_blocks, alignment),
        c.decodes_to(block_c, sub_blocks, alignment),
    ensures
        block_c == add_scaled(block_a, block_b, scalar),
{
    let n = c.width();
    let size = c.symbol_size;
    let x = choose|x: Seq<Seq<u8>>| #[trigger] a.is_solution(x);
    let y = choose|y: Seq<Seq<u8>>| #[trigger] b.is_solution(y);
    let z = symbols_sum(x, y, scalar);
    law_solutions_add(c, a, b, scalar, x, y);
    assert(c.is_solution(z));
    let (p, q, r) = (a.source_symbols(x), b.source_symbols(y), c.source_symbols(z));
    assert forall|i: int| 0 <= i < r.len() implies {
        &&& #[trigger] r[i] == add_scaled(p[i], q[i], scalar)
        &&& p[i].len() == size
        &&& q[i].len() == size
    } by {
        assert(c.sources[i] is Some <==> a.sources[i] is Some);
        assert(c.sources[i] is Some <==> b.sources[i] is Some);
        if c.sources[i] is None {
            lemma_combination_sum(lt_coefs(c.code, c.params(), i), x, y, n, size, scalar);
        } else {
            assert(a.sources[i]->0.len() == size);
            assert(b.sources[i]->0.len() == size);
        }
    }
    assert forall|i: int| 0 <= i < p.len() implies (#[trigger] p[i]).len() == size by {
        assert(r[i] == add_scaled(p[i], q[i], scalar));
    }
    assert forall|i: int| 0 <= i < q.len() implies (#[trigger] q[i]).len() == size by {
        assert(r[i] == add_scaled(p[i], q[i], scalar));
    }
    law_layout_linear(r, p, q, scalar, size as int, sub_blocks, alignment);
}

} // verus!
