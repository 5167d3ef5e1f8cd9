//! What the model of a reception says, in plain terms.
//!
//! The decoder is stated over [`Reception`]. The laws here say what its parts are: which equations
//! the received symbols give, which numbers decide whether the decoding applies, and what a
//! solution and the symbols encoded from it are.

use crate::base::EncodingPacket;
use crate::constraint_matrix::{hdpc_coefs, ldpc_coefs, lt_coefs};
use crate::gf256::gf_mul;
use crate::laws::{law_recoverable_if_determined, lemma_source_wide};
use crate::linear::{
    all_met, combination, dot, dot_upto, in_kernel, kept, redundant, slice_at, solves,
    trivial_kernel, Equation,
};
use crate::reception::{missing, reception, source_equations, Reception};
use crate::sparse_row::{
    coef, distinct_columns, increasing_columns, lemma_coef_absent, lemma_coef_present,
    lemma_coef_witness, lists, sorted_columns, SparseRow,
};
use crate::sub_blocks::block_layout;
use crate::symbol::{add_scaled, scaled, zero_bytes, Symbol};
use crate::systematic_constants::{lemma_parameters_valid, CodeView};
use vstd::prelude::*;

verus! {

/// Symbols are added and scaled byte by byte over the field, where addition is exclusive or.
pub proof fn law_symbol_arithmetic(a: Seq<u8>, b: Seq<u8>, scalar: u8, size: nat, t: int)
    ensures
        zero_bytes(size).len() == size,
        0 <= t < size ==> zero_bytes(size)[t] == 0,
        add_scaled(a, b, scalar).len() == a.len(),
        0 <= t < a.len() ==> add_scaled(a, b, scalar)[t] == a[t] ^ gf_mul(scalar, b[t]),
        scaled(a, scalar).len() == a.len(),
        0 <= t < a.len() ==> scaled(a, scalar)[t] == gf_mul(scalar, a[t]),
{
}

proof fn lemma_dot_upto_prefix(a: Seq<u8>, x: u8, v: Seq<u8>, n: nat)
    requires
        n <= a.len(),
    ensures
        dot_upto(a.push(x), v, n) == dot_upto(a, v, n),
    decreases n,
{
    if n > 0 {
        lemma_dot_upto_prefix(a, x, v, (n - 1) as nat);
    }
}

/// A sum of products has one product for each coefficient.
pub proof fn law_sum_of_products(a: Seq<u8>, x: u8, v: Seq<u8>)
    ensures
        dot(Seq::<u8>::empty(), v) == 0,
        dot(a.push(x), v) == dot(a, v) ^ gf_mul(x, v[a.len() as int]),
{
    lemma_dot_upto_prefix(a, x, v, a.len());
}

/// A combination of symbols has, at each position, the sum of the products of the coefficients with
/// the bytes there.
pub proof fn law_combination(coefs: Seq<u8>, x: Seq<Seq<u8>>, size: nat, t: int)
    ensures
        combination(coefs, x, size).len() == size,
        0 <= t < size ==> combination(coefs, x, size)[t] == dot(
            coefs,
            Seq::new(x.len(), |c: int| x[c][t]),
        ),
{
    assert(slice_at(x, t) =~= Seq::new(x.len(), |c: int| x[c][t]));
}

/// Adding and scaling equations, coefficient by coefficient and byte by byte.
pub proof fn law_equation_arithmetic(a: Equation, b: Equation, scalar: u8, c: int)
    ensures
        a.plus(b, scalar).coefs.len() == a.coefs.len(),
        a.plus(b, scalar).rhs.len() == a.rhs.len(),
        0 <= c < a.coefs.len() ==> a.plus(b, scalar).coefs[c] == a.coefs[c] ^ gf_mul(
            scalar,
            b.coefs[c],
        ),
        0 <= c < a.rhs.len() ==> a.plus(b, scalar).rhs[c] == a.rhs[c] ^ gf_mul(scalar, b.rhs[c]),
        a.times(scalar).coefs.len() == a.coefs.len(),
        a.times(scalar).rhs.len() == a.rhs.len(),
        0 <= c < a.coefs.len() ==> a.times(scalar).coefs[c] == gf_mul(scalar, a.coefs[c]),
        0 <= c < a.rhs.len() ==> a.times(scalar).rhs[c] == gf_mul(scalar, a.rhs[c]),
{
}

/// A vector meets an equation where the sum of its products is the byte on the right-hand side, and
/// its homogeneous part where the sum is zero.
pub proof fn law_met(eq: Equation, v: Seq<u8>, t: int)
    ensures
        eq.met(v, t, true) <==> dot(eq.coefs, v) == eq.rhs[t],
        eq.met(v, t, false) <==> dot(eq.coefs, v) == 0,
        eq.gap(v, t, true) == dot(eq.coefs, v) ^ eq.rhs[t],
{
}

/// The equation of a row has, in each column, the coefficient of the entry for that column, and
/// zero where there is none.
pub proof fn law_row_equation(row: SparseRow, n: nat, i: int, c: int)
    requires
        row.canonical(),
        0 <= c < n,
    ensures
        row.equation(n).coefs.len() == n,
        row.equation(n).rhs == row.rhs@,
        0 <= i < row.cols@.len() && row.cols@[i].0 == c ==> row.equation(n).coefs[c]
            == row.cols@[i].1,
        (forall|k: int| 0 <= k < row.cols@.len() ==> (#[trigger] row.cols@[k]).0 != c)
            ==> row.equation(n).coefs[c] == 0,
{
    if 0 <= i < row.cols@.len() && row.cols@[i].0 == c {
        lemma_coef_present(row.cols@, i);
    }
    if forall|k: int| 0 <= k < row.cols@.len() ==> (#[trigger] row.cols@[k]).0 != c {
        lemma_coef_absent(row.cols@, c);
    }
}

/// The form of a row: a canonical one has increasing columns and no zero among its coefficients; it
/// is well formed where the columns are below `n` and the right-hand side has `size` bytes.
pub proof fn law_row_form(row: SparseRow, n: nat, size: nat)
    ensures
        row.canonical() <==> {
            &&& forall|i: int, j: int|
                0 <= i < j < row.cols@.len() ==> (#[trigger] row.cols@[i]).0 < (
                #[trigger] row.cols@[j]).0
            &&& forall|i: int| 0 <= i < row.cols@.len() ==> (#[trigger] row.cols@[i]).1 != 0
        },
        row.wf(n, size) <==> {
            &&& row.canonical()
            &&& forall|i: int| 0 <= i < row.cols@.len() ==> (#[trigger] row.cols@[i]).0 < n
            &&& row.rhs@.len() == size
        },
        sorted_columns(row.cols@) <==> forall|i: int, j: int|
            0 <= i < j < row.cols@.len() ==> (#[trigger] row.cols@[i]).0 <= (
            #[trigger] row.cols@[j]).0,
        increasing_columns(row.cols@) <==> forall|i: int, j: int|
            0 <= i < j < row.cols@.len() ==> (#[trigger] row.cols@[i]).0 < (
            #[trigger] row.cols@[j]).0,
        distinct_columns(row.cols@) <==> forall|i: int, j: int|
            0 <= i < j < row.cols@.len() ==> (#[trigger] row.cols@[i]).0 != (
            #[trigger] row.cols@[j]).0,
{
}

/// A list of coefficients holds each of them once: entry `i` is the coefficient of its column, and
/// a coefficient that is not zero has an entry.
pub proof fn law_lists(cols: Seq<(u32, u8)>, coefs: Seq<u8>, i: int, c: int)
    requires
        lists(cols, coefs),
        0 <= i < cols.len(),
        0 <= c < coefs.len(),
    ensures
        cols[i].0 < coefs.len(),
        coefs[cols[i].0 as int] == cols[i].1,
        coefs[c] != 0 ==> exists|k: int| 0 <= k < cols.len() && (#[trigger] cols[k]).0 == c,
        forall|k: int| 0 <= k < cols.len() && k != i ==> (#[trigger] cols[k]).0 != cols[i].0,
{
    lemma_coef_present(cols, i);
    assert(coef(cols, cols[i].0 as int) == coefs[cols[i].0 as int]);
    assert(coef(cols, c) == coefs[c]);
    if coefs[c] != 0 {
        let k = lemma_coef_witness(cols, c);
        assert(cols[k].0 == c);
    }
    assert forall|k: int| 0 <= k < cols.len() && k != i implies (#[trigger] cols[k]).0
        != cols[i].0 by {
        if k < i {
            assert(cols[k].0 != cols[i].0);
        }
    }
}

/// A trivial kernel has no vector but zero on which all left-hand sides vanish.
pub proof fn law_trivial_kernel(eqs: Seq<Equation>, n: nat)
    ensures
        trivial_kernel(eqs, n) <==> !exists|v: Seq<u8>|
            {
                &&& #[trigger] v.len() == n
                &&& forall|i: int| 0 <= i < eqs.len() ==> dot((#[trigger] eqs[i]).coefs, v) == 0
                &&& exists|c: int| 0 <= c < n && #[trigger] v[c] != 0
            },
{
    if trivial_kernel(eqs, n) {
        assert forall|v: Seq<u8>|
            #[trigger] v.len() == n && (forall|i: int|
                0 <= i < eqs.len() ==> dot((#[trigger] eqs[i]).coefs, v) == 0) implies !exists|
            c: int,
        | 0 <= c < n && #[trigger] v[c] != 0 by {
            assert forall|i: int| 0 <= i < eqs.len() implies (#[trigger] eqs[i]).met(
                v,
                0,
                false,
            ) by {}
            assert(in_kernel(eqs, v));
            assert(v == zero_bytes(n));
        }
    } else {
        let v = choose|v: Seq<u8>|
            v.len() == n && #[trigger] in_kernel(eqs, v) && v != zero_bytes(n);
        assert forall|i: int| 0 <= i < eqs.len() implies dot((#[trigger] eqs[i]).coefs, v)
            == 0 by {
            assert(eqs[i].met(v, 0, false));
        }
        if forall|c: int| 0 <= c < n ==> #[trigger] v[c] == 0 {
            assert(v =~= zero_bytes(n));
        }
        assert(v.len() == n);
    }
}

/// Of equations taken in order, one is kept where its left-hand side does not vanish on everything
/// on which those before it vanish.
pub proof fn law_kept(eqs: Seq<Equation>, eq: Equation)
    ensures
        kept(Seq::<Equation>::empty()).len() == 0,
        (exists|v: Seq<u8>|
            {
                &&& #[trigger] v.len() == eq.coefs.len()
                &&& forall|i: int| 0 <= i < eqs.len() ==> dot((#[trigger] eqs[i]).coefs, v) == 0
                &&& dot(eq.coefs, v) != 0
            }) ==> kept(eqs.push(eq)) == kept(eqs).push(eq),
        !(exists|v: Seq<u8>|
            {
                &&& #[trigger] v.len() == eq.coefs.len()
                &&& forall|i: int| 0 <= i < eqs.len() ==> dot((#[trigger] eqs[i]).coefs, v) == 0
                &&& dot(eq.coefs, v) != 0
            }) ==> kept(eqs.push(eq)) == kept(eqs),
{
    let longer = eqs.push(eq);
    let last = longer.len() - 1;
    assert(longer.drop_last() =~= eqs);
    assert(longer.take(last) =~= eqs);
    if exists|v: Seq<u8>|
        {
            &&& #[trigger] v.len() == eq.coefs.len()
            &&& forall|i: int| 0 <= i < eqs.len() ==> dot((#[trigger] eqs[i]).coefs, v) == 0
            &&& dot(eq.coefs, v) != 0
        } {
        let v = choose|v: Seq<u8>|
            {
                &&& #[trigger] v.len() == eq.coefs.len()
                &&& forall|i: int| 0 <= i < eqs.len() ==> dot((#[trigger] eqs[i]).coefs, v) == 0
                &&& dot(eq.coefs, v) != 0
            };
        assert forall|i: int| 0 <= i < eqs.len() implies (#[trigger] eqs[i]).met(
            v,
            0,
            false,
        ) by {}
        assert(in_kernel(longer.take(last), v));
        assert(!redundant(longer, last));
    } else {
        assert forall|v: Seq<u8>| v.len() == longer[last].coefs.len() && #[trigger] in_kernel(
            longer.take(last),
            v,
        ) implies dot(longer[last].coefs, v) == 0 by {
            assert forall|i: int| 0 <= i < eqs.len() implies dot((#[trigger] eqs[i]).coefs, v)
                == 0 by {
                assert(eqs[i].met(v, 0, false));
            }
            assert(v.len() == eq.coefs.len());
        }
        assert(redundant(longer, last));
    }
}

/// The model of the arguments: the symbols and packets as they are, with the encoding symbol ID of
/// each packet.
pub proof fn law_reception(
    code: CodeView,
    source_block_symbols: u32,
    symbol_size: u16,
    source_symbols: Seq<Option<Symbol>>,
    repair_packets: Seq<EncodingPacket>,
    i: int,
)
    ensures
        ({
            let rec = reception(
                code,
                source_block_symbols,
                symbol_size,
                source_symbols,
                repair_packets,
            );
            &&& rec.code == code
            &&& rec.block_symbols == source_block_symbols
            &&& rec.symbol_size == symbol_size
            &&& rec.sources.len() == source_symbols.len()
            &&& 0 <= i < source_symbols.len() ==> (rec.sources[i] is Some <==> source_symbols[i]
                is Some)
            &&& 0 <= i < source_symbols.len() && source_symbols[i] is Some ==> rec.sources[i]->0
                == source_symbols[i]->0@
            &&& rec.repairs.len() == repair_packets.len()
            &&& 0 <= i < repair_packets.len() ==> rec.repairs[i].0
                == repair_packets[i].payload_id.esi() && rec.repairs[i].1
                == repair_packets[i].data@
        }),
{
}

/// The equation of repair packet `i`: with `m` counting the encoding symbols behind the source
/// symbols, it is the encoding symbol with internal ID `K' + m`. So repair symbols never meet the
/// IDs of source and padding symbols, and different ones have different IDs.
pub proof fn law_repair_ids(rec: Reception, i: int, m: int)
    requires
        rec.supported(),
        0 <= i < rec.lost().len(),
        rec.repairs[i].0 == rec.block_symbols + m,
    ensures
        rec.repair_equations().len() == rec.lost().len(),
        rec.repair_equations()[i].coefs == lt_coefs(
            rec.code,
            rec.params(),
            rec.params().kprime + m,
        ),
        rec.repair_equations()[i].rhs == rec.repairs[i].1,
        rec.repair_coefs(rec.block_symbols + m) == lt_coefs(
            rec.code,
            rec.params(),
            rec.params().kprime + m,
        ),
        m >= 0 ==> rec.params().kprime + m >= rec.block_symbols,
{
    lemma_parameters_valid(rec.code, rec.block_symbols);
}

/// Blocks with the same parameters, whatever their number of source symbols, have the same repair
/// symbols: those that come first behind the source symbols are the same combinations.
pub proof fn law_repairs_alike(a: Reception, b: Reception, m: int)
    requires
        a.code == b.code,
        a.params() == b.params(),
    ensures
        a.repair_coefs(a.block_symbols + m) == b.repair_coefs(b.block_symbols + m),
{
}

proof fn lemma_source_place(rec: Reception, sources: Seq<Option<Seq<u8>>>, i: int)
    requires
        0 <= i < sources.len(),
    ensures
        ({
            let eqs = source_equations(rec.code, rec.params(), sources);
            let at = i - missing(sources.take(i)).len();
            &&& eqs.len() + missing(sources).len() == sources.len()
            &&& sources[i] is Some ==> 0 <= at < eqs.len() && eqs[at] == (Equation {
                coefs: lt_coefs(rec.code, rec.params(), i),
                rhs: sources[i]->0,
            })
        }),
    decreases sources.len(),
{
    let shorter = sources.drop_last();
    lemma_source_wide(rec.code, rec.params(), sources);
    lemma_source_wide(rec.code, rec.params(), shorter);
    if i < shorter.len() {
        assert(shorter.take(i) =~= sources.take(i));
        lemma_source_place(rec, shorter, i);
    } else {
        assert(sources.take(i) =~= shorter);
    }
}

/// The constraints, in order: the source symbols that have arrived, each with its bytes, behind as
/// many others as have arrived before it; then the padding symbols `K` to `K' - 1`, the `S` LDPC
/// relations and the `H` HDPC relations, all with zeros on the right-hand side.
pub proof fn law_constraints(rec: Reception, i: int)
    requires
        rec.supported(),
    ensures
        ({
            let eqs = rec.constraints();
            let params = rec.params();
            let arrived = rec.sources.len() - rec.lost().len();
            let padded = arrived + (params.kprime - rec.block_symbols);
            let checked = padded + params.ldpc_symbols;
            let zeros = Seq::new(rec.symbol_size, |t: int| 0u8);
            &&& 0 <= arrived
            &&& eqs.len() == checked + params.hdpc_symbols
            &&& 0 <= i < rec.sources.len() && rec.sources[i] is Some ==> {
                let at = i - missing(rec.sources.take(i)).len();
                &&& 0 <= at < arrived
                &&& eqs[at].coefs == lt_coefs(rec.code, params, i)
                &&& eqs[at].rhs == rec.sources[i]->0
            }
            &&& rec.block_symbols <= i < params.kprime ==> {
                let at = arrived + (i - rec.block_symbols);
                &&& eqs[at].coefs == lt_coefs(rec.code, params, i)
                &&& eqs[at].rhs == zeros
            }
            &&& 0 <= i < params.ldpc_symbols ==> eqs[padded + i].coefs == ldpc_coefs(params, i)
                && eqs[padded + i].rhs == zeros
            &&& 0 <= i < params.hdpc_symbols ==> eqs[checked + i].coefs == hdpc_coefs(
                rec.code,
                params,
                i,
            ) && eqs[checked + i].rhs == zeros
        }),
{
    lemma_parameters_valid(rec.code, rec.block_symbols);
    lemma_source_wide(rec.code, rec.params(), rec.sources);
    if 0 <= i < rec.sources.len() {
        lemma_source_place(rec, rec.sources, i);
    }
    assert(zero_bytes(rec.symbol_size) =~= Seq::new(rec.symbol_size, |t: int| 0u8));
}

/// When a block is recoverable, in numbers: between 1 and 16 symbols are lost, the block has at
/// least 24 source symbols, however many more, there are at least as many repair symbols as lost
/// ones, the constraints that are kept are as many fewer than `K' + S + H` as symbols are lost, and
/// the equations leave nothing open.
pub proof fn law_recoverable_in_numbers(rec: Reception)
    ensures
        rec.recoverable() <==> {
            &&& 1 <= missing(rec.sources).len() <= 16
            &&& 24 <= rec.block_symbols
            &&& missing(rec.sources).len() <= rec.repairs.len()
            &&& kept(rec.constraints()).len() + missing(rec.sources).len() == (
            rec.params().kprime + rec.params().ldpc_symbols + rec.params().hdpc_symbols) as nat
            &&& trivial_kernel(
                rec.constraints() + rec.repair_equations(),
                (rec.params().kprime + rec.params().ldpc_symbols
                    + rec.params().hdpc_symbols) as nat,
            )
        },
{
}

/// Where all source symbols of the block are listed, the equations alone decide within those
/// numbers.
pub proof fn law_success_in_numbers(rec: Reception)
    requires
        rec.code.valid(),
        0 <= rec.block_symbols <= rec.code.blocks.last().kprime,
        rec.sources.len() == rec.block_symbols,
    ensures
        rec.recoverable() <==> {
            &&& 1 <= missing(rec.sources).len() <= 16
            &&& 24 <= rec.block_symbols
            &&& missing(rec.sources).len() <= rec.repairs.len()
            &&& trivial_kernel(
                rec.constraints() + rec.repair_equations(),
                (rec.params().kprime + rec.params().ldpc_symbols
                    + rec.params().hdpc_symbols) as nat,
            )
        },
{
    if 1 <= missing(rec.sources).len() <= 16 && 24 <= rec.block_symbols && missing(
        rec.sources,
    ).len() <= rec.repairs.len() {
        law_recoverable_if_determined(rec);
    }
}

/// A reception is supported where its code is valid and the block is not larger than the largest
/// block size; its symbols have the right size where the source symbols that have arrived, and as
/// many of the first repair symbols as symbols are lost, have as many bytes as a symbol.
pub proof fn law_supported_and_sized(rec: Reception)
    ensures
        rec.supported() <==> rec.code.valid() && 0 <= rec.block_symbols
            <= rec.code.blocks.last().kprime,
        rec.sized() <==> {
            &&& forall|i: int|
                0 <= i < rec.sources.len() && (#[trigger] rec.sources[i]) is Some
                    ==> rec.sources[i]->0.len() == rec.symbol_size
            &&& forall|i: int|
                0 <= i < missing(rec.sources).len() ==> (#[trigger] rec.repairs[i]).1.len()
                    == rec.symbol_size
        },
{
}

/// What a reception decodes to: there is a solution, and the source symbols of every solution, laid
/// out, are the block.
pub proof fn law_decodes_to(rec: Reception, block: Seq<u8>, sub_blocks: int, alignment: int)
    ensures
        rec.decodes_to(block, sub_blocks, alignment) <==> {
            &&& exists|x: Seq<Seq<u8>>| #[trigger] rec.is_solution(x)
            &&& forall|x: Seq<Seq<u8>>| #[trigger]
                rec.is_solution(x) ==> block == block_layout(
                    rec.source_symbols(x),
                    rec.symbol_size as int,
                    sub_blocks,
                    alignment,
                )
        },
{
}

/// A solution has one symbol for each intermediate symbol, and its bytes meet, at every position,
/// all constraints that are kept and the equations of the repair symbols that are used.
pub proof fn law_solution(rec: Reception, x: Seq<Seq<u8>>)
    ensures
        rec.is_solution(x) <==> {
            let eqs = kept(rec.constraints()) + rec.repair_equations();
            &&& x.len() == (rec.params().kprime + rec.params().ldpc_symbols
                + rec.params().hdpc_symbols) as nat
            &&& forall|c: int| 0 <= c < x.len() ==> (#[trigger] x[c]).len() == rec.symbol_size
            &&& forall|i: int, t: int|
                0 <= i < eqs.len() && 0 <= t < rec.symbol_size ==> dot(
                    eqs[i].coefs,
                    Seq::new(x.len(), |c: int| x[c][t]),
                ) == #[trigger] eqs[i].rhs[t]
        },
{
    let eqs = kept(rec.constraints()) + rec.repair_equations();
    if rec.is_solution(x) {
        assert forall|i: int, t: int| 0 <= i < eqs.len() && 0 <= t < rec.symbol_size implies dot(
            eqs[i].coefs,
            Seq::new(x.len(), |c: int| x[c][t]),
        ) == #[trigger] eqs[i].rhs[t] by {
            assert(all_met(eqs, slice_at(x, t), t, true));
            assert(eqs[i].met(slice_at(x, t), t, true));
            assert(slice_at(x, t) =~= Seq::new(x.len(), |c: int| x[c][t]));
        }
    }
    if forall|i: int, t: int|
        0 <= i < eqs.len() && 0 <= t < rec.symbol_size ==> dot(
            eqs[i].coefs,
            Seq::new(x.len(), |c: int| x[c][t]),
        ) == #[trigger] eqs[i].rhs[t] {
        assert forall|t: int| 0 <= t < rec.symbol_size implies #[trigger] all_met(
            eqs,
            slice_at(x, t),
            t,
            true,
        ) by {
            assert(slice_at(x, t) =~= Seq::new(x.len(), |c: int| x[c][t]));
            assert forall|i: int| 0 <= i < eqs.len() implies (#[trigger] eqs[i]).met(
                slice_at(x, t),
                t,
                true,
            ) by {
                assert(dot(eqs[i].coefs, Seq::new(x.len(), |c: int| x[c][t])) == eqs[i].rhs[t]);
            }
        }
        assert(solves(eqs, x, rec.symbol_size));
    }
}

/// The source symbols of a decoded block: what has arrived as it is, and in the place of what is
/// lost the encoding symbol with that ID, byte by byte from the solution.
pub proof fn law_source_symbols(rec: Reception, x: Seq<Seq<u8>>, i: int, t: int)
    requires
        0 <= i < rec.block_symbols,
        0 <= t < rec.symbol_size,
    ensures
        rec.source_symbols(x).len() == rec.block_symbols,
        rec.sources[i] is Some ==> rec.source_symbols(x)[i] == rec.sources[i]->0,
        rec.sources[i] is None ==> {
            &&& rec.source_symbols(x)[i].len() == rec.symbol_size
            &&& rec.source_symbols(x)[i][t] == dot(
                lt_coefs(rec.code, rec.params(), i),
                Seq::new(x.len(), |c: int| x[c][t]),
            )
        },
{
    law_combination(lt_coefs(rec.code, rec.params(), i), x, rec.symbol_size, t);
}

} // verus!
