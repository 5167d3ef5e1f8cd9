//! What holds of the decoding as a whole.

use crate::constraint_matrix::{hdpc_coefs, ldpc_coefs, lt_coefs};
use crate::gf256::{gf_mul, lemma_mul_units, lemma_xor};
use crate::linear::{
    all_met, combination, dot, in_kernel, kept, lemma_all_met_push, lemma_dot_upto_linear,
    lemma_kept_kernel, lemma_kept_members, redundant, slice_at, symbols_shaped, trivial_kernel,
    Equation,
};
use crate::rank::{all_wide, lemma_fewer_equations};
use crate::reception::{missing, source_equations, Reception};
use crate::reduction::lemma_all_met_concat;
use crate::sparse_row::{
    coef, entry_coef, increasing_columns, lemma_coef_absent, lemma_coef_present, lemma_coef_witness,
    SparseRow,
};
use crate::sub_blocks::{block_layout, law_layout_position, part_start};
use crate::symbol::{add_scaled, zero_bytes};
use crate::systematic_constants::{lemma_parameters_valid, BlockParameters, CodeView};
use vstd::prelude::*;

verus! {

/// There is one equation for each source symbol that is not missing.
pub proof fn lemma_source_wide(
    code: CodeView,
    params: BlockParameters,
    sources: Seq<Option<Seq<u8>>>,
)
    ensures
        all_wide(source_equations(code, params, sources), params.total() as nat),
        source_equations(code, params, sources).len() + missing(sources).len() == sources.len(),
    decreases sources.len(),
{
    if sources.len() > 0 {
        lemma_source_wide(code, params, sources.drop_last());
    }
}

proof fn lemma_wide(rec: Reception)
    ensures
        all_wide(rec.constraints(), rec.width()),
        all_wide(rec.repair_equations(), rec.width()),
        all_wide(kept(rec.constraints()), rec.width()),
{
    lemma_source_wide(rec.code, rec.params(), rec.sources);
    let all = rec.constraints();
    let first = source_equations(rec.code, rec.params(), rec.sources);
    assert forall|i: int| 0 <= i < all.len() implies (#[trigger] all[i]).coefs.len()
        == rec.width() by {
        if i < first.len() {
            assert(all[i] == first[i]);
        }
    }
    lemma_kept_wide(all, rec.width());
}

proof fn lemma_kept_wide(eqs: Seq<Equation>, n: nat)
    requires
        all_wide(eqs, n),
    ensures
        all_wide(kept(eqs), n),
        kept(eqs).len() <= eqs.len(),
{
    lemma_kept_members(eqs);
    assert forall|i: int| 0 <= i < kept(eqs).len() implies (#[trigger] kept(eqs)[i]).coefs.len()
        == n by {
        let j = choose|j: int| 0 <= j < eqs.len() && eqs[j] == kept(eqs)[i];
        assert(eqs[j].coefs.len() == n);
    }
}

/// What meets all equations meets those that are kept.
proof fn lemma_kept_met(eqs: Seq<Equation>, v: Seq<u8>, t: int)
    requires
        all_met(eqs, v, t, true),
    ensures
        all_met(kept(eqs), v, t, true),
    decreases eqs.len(),
{
    if eqs.len() > 0 {
        assert(eqs =~= eqs.drop_last().push(eqs.last()));
        lemma_all_met_push(eqs.drop_last(), eqs.last(), v, t, true);
        lemma_kept_met(eqs.drop_last(), v, t);
        lemma_all_met_push(kept(eqs.drop_last()), eqs.last(), v, t, true);
    }
}

/// The kernel of the system is that of all constraints and repair symbols.
proof fn lemma_system_kernel(rec: Reception, v: Seq<u8>)
    requires
        v.len() == rec.width(),
    ensures
        in_kernel(rec.system(), v) <==> in_kernel(rec.constraints() + rec.repair_equations(), v),
{
    lemma_wide(rec);
    lemma_kept_kernel(rec.constraints(), v);
    lemma_all_met_concat(kept(rec.constraints()), rec.repair_equations(), v, 0, false);
    lemma_all_met_concat(rec.constraints(), rec.repair_equations(), v, 0, false);
}

/// A recoverable block has at most one solution: the result of the decoding does not depend on how
/// the equations are solved.
pub proof fn law_solution_unique(rec: Reception, x: Seq<Seq<u8>>, y: Seq<Seq<u8>>)
    requires
        rec.recoverable(),
        rec.is_solution(x),
        rec.is_solution(y),
    ensures
        x == y,
{
    let n = rec.width();
    let size = rec.symbol_size;
    let system = rec.system();
    lemma_wide(rec);
    assert forall|c: int, t: int| 0 <= c < n && 0 <= t < size implies #[trigger] x[c][t]
        == y[c][t] by {
        let v = slice_at(x, t);
        let w = slice_at(y, t);
        let z = add_scaled(v, w, 1);
        assert(all_met(system, v, t, true) && all_met(system, w, t, true));
        assert forall|i: int| 0 <= i < system.len() implies (#[trigger] system[i]).met(
            z,
            0,
            false,
        ) by {
            assert(system[i].met(v, t, true) && system[i].met(w, t, true));
            let kept_eqs = kept(rec.constraints());
            assert(system[i].coefs.len() == n) by {
                if i < kept_eqs.len() {
                    assert(system[i] == kept_eqs[i]);
                } else {
                    assert(system[i] == rec.repair_equations()[i - kept_eqs.len()]);
                }
            }
            lemma_dot_upto_linear(system[i].coefs, v, w, 1, n);
            lemma_mul_units(dot(system[i].coefs, w));
            lemma_xor(system[i].rhs[t], 0, 0);
        }
        lemma_system_kernel(rec, z);
        assert(z == zero_bytes(n));
        assert(z[c] == 0);
        lemma_mul_units(w[c]);
        lemma_xor(v[c], w[c], 0);
    }
    assert forall|c: int| 0 <= c < n implies #[trigger] x[c] == y[c] by {
        assert(x[c] =~= y[c]);
    }
    assert(x =~= y);
}

impl Reception {
    /// The combination of the intermediate symbols `x` with the given coefficients is zero.
    pub open spec fn vanishes(self, coefs: Seq<u8>, x: Seq<Seq<u8>>) -> bool {
        combination(coefs, x, self.symbol_size) == zero_bytes(self.symbol_size)
    }

    /// Source symbol `i` of the block that the intermediate symbols `x` encode.
    pub open spec fn encoded_source(self, x: Seq<Seq<u8>>, i: int) -> Seq<u8> {
        combination(lt_coefs(self.code, self.params(), i), x, self.symbol_size)
    }

    /// All source symbols of the block that the intermediate symbols `x` encode.
    pub open spec fn encoded_sources(self, x: Seq<Seq<u8>>) -> Seq<Seq<u8>> {
        Seq::new(self.block_symbols as nat, |i: int| self.encoded_source(x, i))
    }

    /// `x` are the intermediate symbols of a block: they meet the LDPC and HDPC relations, and the
    /// padding symbols are zero.
    pub open spec fn is_block(self, x: Seq<Seq<u8>>) -> bool {
        &&& symbols_shaped(x, self.width(), self.symbol_size)
        &&& forall|i: int|
            self.block_symbols <= i < self.params().kprime ==> #[trigger] self.encoded_source(x, i)
                == zero_bytes(self.symbol_size)
        &&& forall|i: int|
            0 <= i < self.params().ldpc_symbols ==> self.vanishes(
                #[trigger] ldpc_coefs(self.params(), i),
                x,
            )
        &&& forall|i: int|
            0 <= i < self.params().hdpc_symbols ==> self.vanishes(
                #[trigger] hdpc_coefs(self.code, self.params(), i),
                x,
            )
    }

    /// The source symbols that have arrived and the repair symbols that are used were encoded from
    /// the intermediate symbols `x`.
    pub open spec fn received_from(self, x: Seq<Seq<u8>>) -> bool {
        &&& forall|i: int|
            0 <= i < self.sources.len() && (#[trigger] self.sources[i]) is Some
                ==> self.sources[i]->0 == self.encoded_source(x, i)
        &&& forall|i: int|
            0 <= i < self.lost().len() ==> (#[trigger] self.repairs[i]).1 == combination(
                self.repair_coefs(self.repairs[i].0),
                x,
                self.symbol_size,
            )
    }
}

proof fn lemma_source_met(rec: Reception, x: Seq<Seq<u8>>, sources: Seq<Option<Seq<u8>>>, t: int)
    requires
        0 <= t < rec.symbol_size,
        forall|i: int|
            0 <= i < sources.len() && (#[trigger] sources[i]) is Some ==> sources[i]->0
                == rec.encoded_source(x, i),
    ensures
        all_met(source_equations(rec.code, rec.params(), sources), slice_at(x, t), t, true),
    decreases sources.len(),
{
    if sources.len() > 0 {
        let shorter = sources.drop_last();
        assert forall|i: int| 0 <= i < shorter.len() && (#[trigger] shorter[i]) is Some implies
            shorter[i]->0 == rec.encoded_source(x, i) by {
            assert(shorter[i] == sources[i]);
        }
        lemma_source_met(rec, x, shorter, t);
        let last = sources.last();
        assert(last == sources[sources.len() - 1]);
        if last is Some {
            let coefs = lt_coefs(rec.code, rec.params(), sources.len() - 1);
            let eq = Equation { coefs, rhs: last->0 };
            assert(last->0[t] == rec.encoded_source(x, sources.len() - 1)[t]);
            assert(eq.met(slice_at(x, t), t, true));
            lemma_all_met_push(
                source_equations(rec.code, rec.params(), shorter),
                eq,
                slice_at(x, t),
                t,
                true,
            );
        }
    }
}

/// A combination that vanishes meets its equation.
proof fn lemma_vanishes_met(rec: Reception, coefs: Seq<u8>, x: Seq<Seq<u8>>, t: int)
    requires
        rec.vanishes(coefs, x),
        0 <= t < rec.symbol_size,
    ensures
        rec.vanishing(coefs).met(slice_at(x, t), t, true),
{
    assert(combination(coefs, x, rec.symbol_size)[t] == zero_bytes(rec.symbol_size)[t]);
}

proof fn lemma_padding_met(rec: Reception, x: Seq<Seq<u8>>, t: int)
    requires
        rec.supported(),
        rec.is_block(x),
        0 <= t < rec.symbol_size,
    ensures
        all_met(rec.padding_equations(), slice_at(x, t), t, true),
{
    let eqs = rec.padding_equations();
    lemma_parameters_valid(rec.code, rec.block_symbols);
    assert forall|i: int| 0 <= i < eqs.len() implies (#[trigger] eqs[i]).met(
        slice_at(x, t),
        t,
        true,
    ) by {
        let esi = rec.block_symbols + i;
        assert(rec.encoded_source(x, esi) == zero_bytes(rec.symbol_size));
        lemma_vanishes_met(rec, lt_coefs(rec.code, rec.params(), esi), x, t);
    }
}

proof fn lemma_ldpc_met(rec: Reception, x: Seq<Seq<u8>>, t: int)
    requires
        rec.is_block(x),
        0 <= t < rec.symbol_size,
    ensures
        all_met(rec.ldpc_equations(), slice_at(x, t), t, true),
{
    let eqs = rec.ldpc_equations();
    assert forall|i: int| 0 <= i < eqs.len() implies (#[trigger] eqs[i]).met(
        slice_at(x, t),
        t,
        true,
    ) by {
        lemma_vanishes_met(rec, ldpc_coefs(rec.params(), i), x, t);
    }
}

proof fn lemma_hdpc_met(rec: Reception, x: Seq<Seq<u8>>, t: int)
    requires
        rec.is_block(x),
        0 <= t < rec.symbol_size,
    ensures
        all_met(rec.hdpc_equations(), slice_at(x, t), t, true),
{
    let eqs = rec.hdpc_equations();
    assert forall|i: int| 0 <= i < eqs.len() implies (#[trigger] eqs[i]).met(
        slice_at(x, t),
        t,
        true,
    ) by {
        lemma_vanishes_met(rec, hdpc_coefs(rec.code, rec.params(), i), x, t);
    }
}

proof fn lemma_repairs_met(rec: Reception, x: Seq<Seq<u8>>, t: int)
    requires
        rec.received_from(x),
        0 <= t < rec.symbol_size,
    ensures
        all_met(rec.repair_equations(), slice_at(x, t), t, true),
{
    let eqs = rec.repair_equations();
    assert forall|i: int| 0 <= i < eqs.len() implies (#[trigger] eqs[i]).met(
        slice_at(x, t),
        t,
        true,
    ) by {
        let coefs = rec.repair_coefs(rec.repairs[i].0);
        assert(rec.repairs[i].1[t] == combination(coefs, x, rec.symbol_size)[t]);
    }
}

proof fn lemma_constraints_met(rec: Reception, x: Seq<Seq<u8>>, t: int)
    requires
        rec.supported(),
        rec.is_block(x),
        rec.received_from(x),
        0 <= t < rec.symbol_size,
    ensures
        all_met(rec.constraints(), slice_at(x, t), t, true),
{
    let v = slice_at(x, t);
    let first = source_equations(rec.code, rec.params(), rec.sources);
    let padding = rec.padding_equations();
    let ldpc = rec.ldpc_equations();
    let hdpc = rec.hdpc_equations();
    lemma_source_met(rec, x, rec.sources, t);
    lemma_padding_met(rec, x, t);
    lemma_ldpc_met(rec, x, t);
    lemma_hdpc_met(rec, x, t);
    lemma_all_met_concat(first, padding, v, t, true);
    lemma_all_met_concat(first + padding, ldpc, v, t, true);
    lemma_all_met_concat(first + padding + ldpc, hdpc, v, t, true);
}

/// The intermediate symbols of the block that was sent solve the equations of what has arrived.
pub proof fn law_sent_block_is_solution(rec: Reception, x: Seq<Seq<u8>>)
    requires
        rec.supported(),
        rec.is_block(x),
        rec.received_from(x),
    ensures
        rec.is_solution(x),
{
    assert forall|t: int| 0 <= t < rec.symbol_size implies #[trigger] all_met(
        rec.system(),
        slice_at(x, t),
        t,
        true,
    ) by {
        let v = slice_at(x, t);
        lemma_constraints_met(rec, x, t);
        lemma_kept_met(rec.constraints(), v, t);
        lemma_repairs_met(rec, x, t);
        lemma_all_met_concat(kept(rec.constraints()), rec.repair_equations(), v, t, true);
    }
}

/// What was sent is what is decoded: where the symbols that have arrived are those of a block, the
/// result of the decoding is that block.
pub proof fn law_decodes_what_was_sent(
    rec: Reception,
    sent: Seq<Seq<u8>>,
    block: Seq<u8>,
    sub_blocks: int,
    alignment: int,
)
    requires
        rec.supported(),
        rec.block_symbols <= rec.sources.len(),
        rec.is_block(sent),
        rec.received_from(sent),
        rec.decodes_to(block, sub_blocks, alignment),
    ensures
        block == block_layout(
            rec.encoded_sources(sent),
            rec.symbol_size as int,
            sub_blocks,
            alignment,
        ),
{
    law_sent_block_is_solution(rec, sent);
    let expected = rec.encoded_sources(sent);
    assert forall|i: int| 0 <= i < rec.block_symbols implies rec.source_symbol(sent, i)
        == #[trigger] expected[i] by {
        if rec.sources[i] is Some {
            assert(rec.sources[i]->0 == rec.encoded_source(sent, i));
        }
    }
    assert(rec.source_symbols(sent) =~= expected);
}

/// A symbol that has arrived is handed on unchanged: each of its bytes stands at its place in the
/// decoded block.
pub proof fn law_received_symbols_kept(
    rec: Reception,
    block: Seq<u8>,
    sub_blocks: int,
    alignment: int,
    i: int,
    b: int,
    u: int,
)
    requires
        rec.block_symbols <= rec.sources.len(),
        rec.sized(),
        rec.decodes_to(block, sub_blocks, alignment),
        0 < alignment,
        0 <= i < rec.block_symbols,
        rec.sources[i] is Some,
        0 <= b < sub_blocks,
        part_start(rec.symbol_size as int, sub_blocks, alignment, b) <= u < part_start(
            rec.symbol_size as int,
            sub_blocks,
            alignment,
            b + 1,
        ),
    ensures
        ({
            let lo = part_start(rec.symbol_size as int, sub_blocks, alignment, b);
            let hi = part_start(rec.symbol_size as int, sub_blocks, alignment, b + 1);
            let at = rec.block_symbols * lo + i * (hi - lo) + (u - lo);
            &&& 0 <= at < block.len()
            &&& block[at] == rec.sources[i]->0[u]
        }),
{
    let x = choose|x: Seq<Seq<u8>>| #[trigger] rec.is_solution(x);
    let symbols = rec.source_symbols(x);
    assert forall|j: int| 0 <= j < symbols.len() implies (#[trigger] symbols[j]).len()
        == rec.symbol_size by {
        assert(rec.sources[j] is Some ==> rec.sources[j]->0.len() == rec.symbol_size);
    }
    law_layout_position(symbols, rec.symbol_size as int, sub_blocks, alignment, b, i, u);
}

/// For every symbol of the block that is lost the constraints are one short of the number of
/// intermediate symbols.
pub proof fn law_constraint_count(rec: Reception)
    requires
        rec.supported(),
        rec.sources.len() == rec.block_symbols,
    ensures
        rec.constraints().len() + rec.lost().len() == rec.width(),
{
    lemma_parameters_valid(rec.code, rec.block_symbols);
    lemma_source_wide(rec.code, rec.params(), rec.sources);
}

/// The decoding succeeds whenever what has arrived determines the block: where the reduced decoding
/// applies, a block is recoverable exactly if the constraints together with the repair symbols that
/// are used have a trivial kernel.
pub proof fn law_recoverable_if_determined(rec: Reception)
    requires
        rec.supported(),
        rec.sources.len() == rec.block_symbols,
        rec.applies(),
    ensures
        rec.recoverable() <==> trivial_kernel(
            rec.constraints() + rec.repair_equations(),
            rec.width(),
        ),
{
    let n = rec.width();
    law_constraint_count(rec);
    lemma_wide(rec);
    let constraints = rec.constraints();
    lemma_kept_wide(constraints, n);
    let system = rec.system();
    if kept(constraints).len() + rec.lost().len() < n {
        assert forall|i: int| 0 <= i < system.len() implies (#[trigger] system[i]).coefs.len()
            == n by {
            if i < kept(constraints).len() {
                assert(system[i] == kept(constraints)[i]);
            } else {
                assert(system[i] == rec.repair_equations()[i - kept(constraints).len()]);
            }
        }
        lemma_fewer_equations(system, n);
        let v = choose|v: Seq<u8>|
            v.len() == n && #[trigger] in_kernel(system, v) && v != zero_bytes(n);
        lemma_system_kernel(rec, v);
        assert(!trivial_kernel(constraints + rec.repair_equations(), n));
    }
}

/// The lost symbols are those that are missing, in increasing order.
pub proof fn law_lost_positions(sources: Seq<Option<Seq<u8>>>)
    ensures
        forall|i: int|
            #[trigger] missing(sources).contains(i) <==> 0 <= i < sources.len()
                && sources[i] is None,
        forall|j: int, l: int|
            0 <= j < l < missing(sources).len() ==> #[trigger] missing(sources)[j]
                < #[trigger] missing(sources)[l],
    decreases sources.len(),
{
    if sources.len() > 0 {
        let shorter = sources.drop_last();
        let before = missing(shorter);
        let all = missing(sources);
        let last = sources.len() - 1;
        law_lost_positions(shorter);
        assert forall|j: int| 0 <= j < before.len() implies 0 <= #[trigger] before[j] < last by {
            assert(before.contains(before[j]));
        }
        assert forall|i: int| #[trigger] all.contains(i) <==> 0 <= i < sources.len()
            && sources[i] is None by {
            assert(0 <= i < last ==> shorter[i] == sources[i]);
            if all.contains(i) {
                let j = choose|j: int| 0 <= j < all.len() && all[j] == i;
                if j < before.len() {
                    assert(before[j] == i);
                    assert(before.contains(i));
                }
            }
            if before.contains(i) {
                let j = choose|j: int| 0 <= j < before.len() && before[j] == i;
                assert(all[j] == i);
            }
            if i == last && sources[i] is None {
                assert(all[before.len() as int] == i);
            }
        }
    }
}

impl Reception {
    /// All equations that define the intermediate symbols of a block, without right-hand sides: one
    /// for each source and padding symbol, and the LDPC and HDPC relations.
    pub open spec fn code_equations(self) -> Seq<Equation> {
        Seq::new(
            self.params().kprime as nat,
            |i: int| self.vanishing(lt_coefs(self.code, self.params(), i)),
        ) + self.ldpc_equations() + self.hdpc_equations()
    }

    /// The equations that the lost symbols would have given, without right-hand sides.
    spec fn lost_equations(self) -> Seq<Equation> {
        Seq::new(
            self.lost().len(),
            |j: int| self.vanishing(lt_coefs(self.code, self.params(), self.lost()[j])),
        )
    }
}

/// The kernel of the source equations vanishes on every symbol that has arrived.
proof fn lemma_source_kernel(
    code: CodeView,
    params: BlockParameters,
    sources: Seq<Option<Seq<u8>>>,
    v: Seq<u8>,
    i: int,
)
    requires
        in_kernel(source_equations(code, params, sources), v),
        0 <= i < sources.len(),
        sources[i] is Some,
    ensures
        dot(lt_coefs(code, params, i), v) == 0,
    decreases sources.len(),
{
    let shorter = sources.drop_last();
    let before = source_equations(code, params, shorter);
    let all = source_equations(code, params, sources);
    if sources.last() is Some {
        let eq = Equation {
            coefs: lt_coefs(code, params, sources.len() - 1),
            rhs: sources.last()->0,
        };
        assert(all == before.push(eq));
        lemma_all_met_push(before, eq, v, 0, false);
    }
    if i < sources.len() - 1 {
        lemma_source_kernel(code, params, shorter, v, i);
    }
}

/// What is in the kernel of the constraints and vanishes on the lost symbols is in the kernel of
/// the code.
proof fn lemma_code_kernel(rec: Reception, v: Seq<u8>)
    requires
        rec.supported(),
        rec.sources.len() == rec.block_symbols,
        in_kernel(rec.constraints(), v),
        in_kernel(rec.lost_equations(), v),
    ensures
        in_kernel(rec.code_equations(), v),
{
    let first = source_equations(rec.code, rec.params(), rec.sources);
    let padding = rec.padding_equations();
    let ldpc = rec.ldpc_equations();
    let hdpc = rec.hdpc_equations();
    lemma_parameters_valid(rec.code, rec.block_symbols);
    lemma_all_met_concat(first + padding + ldpc, hdpc, v, 0, false);
    lemma_all_met_concat(first + padding, ldpc, v, 0, false);
    lemma_all_met_concat(first, padding, v, 0, false);
    law_lost_positions(rec.sources);
    let lt = Seq::new(
        rec.params().kprime as nat,
        |i: int| rec.vanishing(lt_coefs(rec.code, rec.params(), i)),
    );
    assert forall|i: int| 0 <= i < lt.len() implies (#[trigger] lt[i]).met(v, 0, false) by {
        if i >= rec.block_symbols {
            assert(padding[i - rec.block_symbols].met(v, 0, false));
        } else if rec.sources[i] is Some {
            lemma_source_kernel(rec.code, rec.params(), rec.sources, v, i);
        } else {
            assert(rec.lost().contains(i));
            let j = choose|j: int| 0 <= j < rec.lost().len() && rec.lost()[j] == i;
            assert(rec.lost_equations()[j].met(v, 0, false));
        }
    }
    lemma_all_met_concat(lt, ldpc, v, 0, false);
    lemma_all_met_concat(lt + ldpc, hdpc, v, 0, false);
}

/// Where the code determines its intermediate symbols, the constraints leave exactly one unknown
/// for each lost symbol.
pub proof fn law_one_unknown_per_lost_symbol(rec: Reception)
    requires
        rec.supported(),
        rec.sources.len() == rec.block_symbols,
        trivial_kernel(rec.code_equations(), rec.width()),
    ensures
        kept(rec.constraints()).len() + rec.lost().len() == rec.width(),
{
    let n = rec.width();
    let constraints = rec.constraints();
    law_constraint_count(rec);
    lemma_wide(rec);
    lemma_kept_wide(constraints, n);
    if kept(constraints).len() + rec.lost().len() < n {
        let system = kept(constraints) + rec.lost_equations();
        assert forall|i: int| 0 <= i < system.len() implies (#[trigger] system[i]).coefs.len()
            == n by {
            if i < kept(constraints).len() {
                assert(system[i] == kept(constraints)[i]);
            } else {
                assert(system[i] == rec.lost_equations()[i - kept(constraints).len()]);
            }
        }
        lemma_fewer_equations(system, n);
        let v = choose|v: Seq<u8>|
            v.len() == n && #[trigger] in_kernel(system, v) && v != zero_bytes(n);
        lemma_all_met_concat(kept(constraints), rec.lost_equations(), v, 0, false);
        lemma_kept_kernel(constraints, v);
        lemma_code_kernel(rec, v);
    }
}

/// Repair symbols beyond the first ones, as many as symbols are lost, make no difference.
pub proof fn law_further_repairs_unused(rec: Reception, further: Seq<(int, Seq<u8>)>)
    requires
        rec.lost().len() <= rec.repairs.len(),
    ensures
        ({
            let longer = Reception { repairs: rec.repairs + further, ..rec };
            &&& longer.recoverable() == rec.recoverable()
            &&& longer.system() == rec.system()
        }),
{
    let longer = Reception { repairs: rec.repairs + further, ..rec };
    assert(longer.padding_equations() =~= rec.padding_equations());
    assert(longer.ldpc_equations() =~= rec.ldpc_equations());
    assert(longer.hdpc_equations() =~= rec.hdpc_equations());
    assert(longer.repair_equations() =~= rec.repair_equations());
}

/// The repair symbol is among those that are used.
spec fn is_used(rec: Reception, repair: (int, Seq<u8>)) -> bool {
    exists|j: int| 0 <= j < rec.lost().len() && #[trigger] rec.repairs[j] == repair
}

/// Each repair symbol that `other` uses is among those that `rec` uses.
spec fn uses_only(other: Reception, rec: Reception) -> bool {
    forall|i: int| 0 <= i < rec.lost().len() ==> is_used(rec, #[trigger] other.repairs[i])
}

proof fn lemma_reordered_met(
    rec: Reception,
    other: Reception,
    v: Seq<u8>,
    t: int,
    affine: bool,
)
    requires
        other == (Reception { repairs: other.repairs, ..rec }),
        uses_only(other, rec),
        all_met(rec.repair_equations(), v, t, affine),
    ensures
        all_met(other.repair_equations(), v, t, affine),
{
    let a = rec.repair_equations();
    let b = other.repair_equations();
    assert forall|i: int| 0 <= i < b.len() implies (#[trigger] b[i]).met(v, t, affine) by {
        assert(is_used(rec, other.repairs[i]));
        let j = choose|j: int|
            0 <= j < rec.lost().len() && #[trigger] rec.repairs[j] == other.repairs[i];
        assert(a[j].met(v, t, affine));
        assert(b[i] == a[j]);
    }
}

proof fn lemma_reordered_uses(rec: Reception, other: Reception)
    requires
        other == (Reception { repairs: other.repairs, ..rec }),
        rec.lost().len() <= rec.repairs.len(),
        rec.lost().len() <= other.repairs.len(),
        other.repairs.take(rec.lost().len() as int).to_multiset() == rec.repairs.take(
            rec.lost().len() as int,
        ).to_multiset(),
    ensures
        uses_only(other, rec),
{
    let count = rec.lost().len() as int;
    let a = rec.repairs.take(count);
    let b = other.repairs.take(count);
    a.to_multiset_ensures();
    b.to_multiset_ensures();
    assert forall|i: int| 0 <= i < count implies is_used(rec, #[trigger] other.repairs[i]) by {
        let e = other.repairs[i];
        assert(b[i] == e);
        assert(b.contains(e));
        assert(b.to_multiset().count(e) > 0);
        assert(a.contains(e));
        let j = choose|j: int| 0 <= j < a.len() && a[j] == e;
        assert(rec.repairs[j] == e);
    }
}

proof fn lemma_reordered_equations(rec: Reception, other: Reception)
    requires
        other == (Reception { repairs: other.repairs, ..rec }),
        uses_only(other, rec),
        uses_only(rec, other),
    ensures
        other.constraints() == rec.constraints(),
        trivial_kernel(rec.constraints() + rec.repair_equations(), rec.width()) == trivial_kernel(
            other.constraints() + other.repair_equations(),
            rec.width(),
        ),
        forall|x: Seq<Seq<u8>>| #[trigger] other.is_solution(x) <==> rec.is_solution(x),
{
    assert(other.padding_equations() =~= rec.padding_equations());
    assert(other.ldpc_equations() =~= rec.ldpc_equations());
    assert(other.hdpc_equations() =~= rec.hdpc_equations());
    let constraints = rec.constraints();
    let a = rec.repair_equations();
    let b = other.repair_equations();
    assert forall|v: Seq<u8>, t: int, affine: bool|
        #![trigger all_met(b, v, t, affine)]
        all_met(a, v, t, affine) <==> all_met(b, v, t, affine) by {
        if all_met(a, v, t, affine) {
            lemma_reordered_met(rec, other, v, t, affine);
        }
        if all_met(b, v, t, affine) {
            lemma_reordered_met(other, rec, v, t, affine);
        }
    }
    assert forall|v: Seq<u8>|
        #![trigger in_kernel(constraints + a, v)]
        #![trigger in_kernel(constraints + b, v)]
        in_kernel(constraints + a, v) <==> in_kernel(constraints + b, v) by {
        lemma_all_met_concat(constraints, a, v, 0, false);
        lemma_all_met_concat(constraints, b, v, 0, false);
        assert(all_met(a, v, 0, false) <==> all_met(b, v, 0, false));
    }
    let first = kept(constraints) + a;
    let second = kept(constraints) + b;
    assert forall|x: Seq<Seq<u8>>| #[trigger] other.is_solution(x) <==> rec.is_solution(x) by {
        assert forall|t: int|
            #![trigger all_met(first, slice_at(x, t), t, true)]
            #![trigger all_met(second, slice_at(x, t), t, true)]
            all_met(first, slice_at(x, t), t, true) <==> all_met(
                second,
                slice_at(x, t),
                t,
                true,
            ) by {
            let v = slice_at(x, t);
            lemma_all_met_concat(kept(constraints), a, v, t, true);
            lemma_all_met_concat(kept(constraints), b, v, t, true);
            assert(all_met(a, v, t, true) <==> all_met(b, v, t, true));
        }
    }
}

/// The order of the repair symbols that are used does not matter, neither for success nor for the
/// block that is decoded.
pub proof fn law_repair_order_irrelevant(rec: Reception, reordered: Seq<(int, Seq<u8>)>)
    requires
        rec.lost().len() <= rec.repairs.len(),
        rec.lost().len() <= reordered.len(),
        reordered.take(rec.lost().len() as int).to_multiset() == rec.repairs.take(
            rec.lost().len() as int,
        ).to_multiset(),
    ensures
        ({
            let other = Reception { repairs: reordered, ..rec };
            &&& other.recoverable() == rec.recoverable()
            &&& forall|x: Seq<Seq<u8>>| #[trigger] other.is_solution(x) <==> rec.is_solution(x)
            &&& forall|block: Seq<u8>, sub_blocks: int, alignment: int| #[trigger]
                other.decodes_to(block, sub_blocks, alignment) <==> rec.decodes_to(
                    block,
                    sub_blocks,
                    alignment,
                )
        }),
{
    let other = Reception { repairs: reordered, ..rec };
    lemma_reordered_uses(rec, other);
    lemma_reordered_uses(other, rec);
    lemma_reordered_equations(rec, other);
    assert forall|x: Seq<Seq<u8>>| #[trigger] other.source_symbols(x) == rec.source_symbols(x) by {
        assert(other.source_symbols(x) =~= rec.source_symbols(x));
    }
    assert forall|block: Seq<u8>, sub_blocks: int, alignment: int| #[trigger]
        other.decodes_to(block, sub_blocks, alignment) <==> rec.decodes_to(
            block,
            sub_blocks,
            alignment,
        ) by {
        assert forall|x: Seq<Seq<u8>>| #[trigger] rec.is_solution(x) implies other.is_solution(
            x,
        ) && other.source_symbols(x) == rec.source_symbols(x) by {
            assert(other.is_solution(x) <==> rec.is_solution(x));
        }
    }
}

/// The equations have the same left-hand sides.
pub open spec fn same_coefs(a: Seq<Equation>, b: Seq<Equation>) -> bool {
    &&& a.len() == b.len()
    &&& forall|i: int| 0 <= i < a.len() ==> (#[trigger] a[i]).coefs == b[i].coefs
}

proof fn lemma_same_kernel(a: Seq<Equation>, b: Seq<Equation>, v: Seq<u8>)
    requires
        same_coefs(a, b),
    ensures
        in_kernel(a, v) <==> in_kernel(b, v),
{
    if in_kernel(a, v) {
        assert forall|i: int| 0 <= i < b.len() implies (#[trigger] b[i]).met(v, 0, false) by {
            assert(a[i].met(v, 0, false));
        }
    }
    if in_kernel(b, v) {
        assert forall|i: int| 0 <= i < a.len() implies (#[trigger] a[i]).met(v, 0, false) by {
            assert(b[i].met(v, 0, false));
        }
    }
}

/// Redundancy depends on the left-hand sides alone.
pub proof fn lemma_same_redundant(a: Seq<Equation>, b: Seq<Equation>, i: int)
    requires
        same_coefs(a, b),
        0 <= i < a.len(),
        redundant(a, i),
    ensures
        redundant(b, i),
{
    assert(a[i].coefs == b[i].coefs);
    assert forall|v: Seq<u8>| v.len() == b[i].coefs.len() && #[trigger] in_kernel(
        b.take(i),
        v,
    ) implies dot(b[i].coefs, v) == 0 by {
        lemma_same_kernel(a.take(i), b.take(i), v);
    }
}

proof fn lemma_same_rank(a: Seq<Equation>, b: Seq<Equation>)
    requires
        same_coefs(a, b),
    ensures
        kept(a).len() == kept(b).len(),
    decreases a.len(),
{
    if a.len() > 0 {
        let i = a.len() - 1;
        lemma_same_rank(a.drop_last(), b.drop_last());
        if redundant(a, i) {
            lemma_same_redundant(a, b, i);
        }
        if redundant(b, i) {
            lemma_same_redundant(b, a, i);
        }
    }
}

proof fn lemma_same_trivial(a: Seq<Equation>, b: Seq<Equation>, n: nat)
    requires
        same_coefs(a, b),
        trivial_kernel(a, n),
    ensures
        trivial_kernel(b, n),
{
    assert forall|v: Seq<u8>| v.len() == n && #[trigger] in_kernel(b, v) implies v == zero_bytes(
        n,
    ) by {
        lemma_same_kernel(a, b, v);
    }
}

impl Reception {
    /// The same symbols have arrived, though they may hold other bytes.
    pub open spec fn same_arrivals(self, other: Reception) -> bool {
        &&& self.code == other.code
        &&& self.block_symbols == other.block_symbols
        &&& self.sources.len() == other.sources.len()
        &&& forall|i: int|
            0 <= i < self.sources.len() ==> ((#[trigger] self.sources[i]) is Some
                <==> other.sources[i] is Some)
        &&& self.repairs.len() == other.repairs.len()
        &&& forall|i: int|
            0 <= i < self.repairs.len() ==> (#[trigger] self.repairs[i]).0 == other.repairs[i].0
    }
}

/// Which symbols are lost, and the left-hand sides of the others, depend on the arrivals alone.
pub proof fn lemma_same_sources(
    code: CodeView,
    params: BlockParameters,
    a: Seq<Option<Seq<u8>>>,
    b: Seq<Option<Seq<u8>>>,
)
    requires
        a.len() == b.len(),
        forall|i: int| 0 <= i < a.len() ==> ((#[trigger] a[i]) is Some <==> b[i] is Some),
    ensures
        missing(a) == missing(b),
        same_coefs(source_equations(code, params, a), source_equations(code, params, b)),
    decreases a.len(),
{
    if a.len() > 0 {
        assert(a[a.len() - 1] is Some <==> b[b.len() - 1] is Some);
        lemma_same_sources(code, params, a.drop_last(), b.drop_last());
    }
}

proof fn lemma_same_equations(rec: Reception, other: Reception)
    requires
        rec.same_arrivals(other),
        rec.applies(),
    ensures
        other.applies(),
        other.lost() == rec.lost(),
        same_coefs(rec.constraints(), other.constraints()),
        same_coefs(
            rec.constraints() + rec.repair_equations(),
            other.constraints() + other.repair_equations(),
        ),
{
    let first = source_equations(rec.code, rec.params(), rec.sources);
    let second = source_equations(rec.code, rec.params(), other.sources);
    lemma_same_sources(rec.code, rec.params(), rec.sources, other.sources);
    let a = rec.constraints();
    let b = other.constraints();
    assert forall|i: int| 0 <= i < a.len() implies (#[trigger] a[i]).coefs == b[i].coefs by {
        if i < first.len() {
            assert(first[i].coefs == second[i].coefs);
        }
    }
    let c = a + rec.repair_equations();
    let d = b + other.repair_equations();
    assert forall|i: int| 0 <= i < c.len() implies (#[trigger] c[i]).coefs == d[i].coefs by {
        if i < a.len() {
            assert(a[i].coefs == b[i].coefs);
        } else {
            let k = i - a.len();
            assert(rec.repairs[k].0 == other.repairs[k].0);
        }
    }
}

/// Whether a block is recoverable depends on which symbols have arrived, not on what they hold.
pub proof fn law_recoverable_by_arrivals(rec: Reception, other: Reception)
    requires
        rec.same_arrivals(other),
        rec.recoverable(),
    ensures
        other.recoverable(),
{
    lemma_same_equations(rec, other);
    lemma_same_rank(rec.constraints(), other.constraints());
    lemma_same_trivial(
        rec.constraints() + rec.repair_equations(),
        other.constraints() + other.repair_equations(),
        rec.width(),
    );
}

/// Adding a multiple of an equation a second time undoes the first.
pub proof fn law_row_operation_undone(eq: Equation, other: Equation, scalar: u8)
    ensures
        eq.plus(other, scalar).plus(other, scalar) == eq,
{
    let twice = eq.plus(other, scalar).plus(other, scalar);
    assert forall|c: int| 0 <= c < eq.coefs.len() implies #[trigger] twice.coefs[c]
        == eq.coefs[c] by {
        lemma_xor(eq.coefs[c], gf_mul(scalar, other.coefs[c]), 0);
    }
    assert forall|t: int| 0 <= t < eq.rhs.len() implies #[trigger] twice.rhs[t] == eq.rhs[t] by {
        lemma_xor(eq.rhs[t], gf_mul(scalar, other.rhs[t]), 0);
    }
    assert(twice.coefs =~= eq.coefs);
    assert(twice.rhs =~= eq.rhs);
}

/// Entries without a zero, in increasing columns, are determined by the coefficients.
proof fn lemma_entries_unique(a: Seq<(u32, u8)>, b: Seq<(u32, u8)>)
    requires
        increasing_columns(a),
        increasing_columns(b),
        forall|i: int| 0 <= i < a.len() ==> (#[trigger] a[i]).1 != 0,
        forall|i: int| 0 <= i < b.len() ==> (#[trigger] b[i]).1 != 0,
        forall|c: int| #[trigger] coef(a, c) == coef(b, c),
    ensures
        a == b,
    decreases a.len(),
{
    if a.len() == 0 {
        if b.len() > 0 {
            lemma_coef_present(b, 0);
            lemma_coef_absent(a, b[0].0 as int);
            assert(coef(a, b[0].0 as int) == coef(b, b[0].0 as int));
        }
        assert(a =~= b);
    } else {
        let i = a.len() - 1;
        lemma_coef_present(a, i);
        assert(coef(a, a[i].0 as int) == coef(b, a[i].0 as int));
        let j = lemma_coef_witness(b, a[i].0 as int);
        let k = b.len() - 1;
        lemma_coef_present(b, k);
        assert(coef(a, b[k].0 as int) == coef(b, b[k].0 as int));
        let l = lemma_coef_witness(a, b[k].0 as int);
        // The last columns agree: each is in the other sequence.
        assert(a[i].0 <= b[k].0) by {
            assert(j == k || b[j].0 < b[k].0);
        }
        assert(b[k].0 <= a[i].0) by {
            assert(l == i || a[l].0 < a[i].0);
        }
        assert(a.last() == b.last());
        let p = a.drop_last();
        let q = b.drop_last();
        assert forall|c: int| #[trigger] coef(p, c) == coef(q, c) by {
            let e = entry_coef(a.last(), c);
            assert(coef(a, c) == coef(b, c));
            lemma_xor(coef(p, c), e, 0);
            lemma_xor(coef(q, c), e, 0);
        }
        assert forall|m: int| 0 <= m < p.len() implies (#[trigger] p[m]).1 != 0 by {
            assert(p[m] == a[m]);
        }
        assert forall|m: int| 0 <= m < q.len() implies (#[trigger] q[m]).1 != 0 by {
            assert(q[m] == b[m]);
        }
        lemma_entries_unique(p, q);
        assert(a =~= p.push(a.last()));
        assert(b =~= q.push(b.last()));
    }
}

/// An equation has only one canonical row.
pub proof fn law_canonical_row_unique(a: SparseRow, b: SparseRow, n: nat)
    requires
        a.canonical(),
        a.within(n),
        b.canonical(),
        b.within(n),
        a.equation(n) == b.equation(n),
    ensures
        a.cols@ == b.cols@,
        a.rhs@ == b.rhs@,
{
    assert forall|c: int| #[trigger] coef(a.cols@, c) == coef(b.cols@, c) by {
        if 0 <= c < n {
            assert(a.equation(n).coefs[c] == coef(a.cols@, c));
            assert(b.equation(n).coefs[c] == coef(b.cols@, c));
        } else {
            lemma_coef_absent(a.cols@, c);
            lemma_coef_absent(b.cols@, c);
        }
    }
    lemma_entries_unique(a.cols@, b.cols@);
}

} // verus!
