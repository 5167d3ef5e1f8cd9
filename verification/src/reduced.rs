//! Decoding by dimension reduction.
//!
//! Where few symbols of a block are lost, most source symbols are known, and with them nearly all
//! relations among the intermediate symbols. Sparse elimination on these relations leaves as many
//! free intermediate symbols as source symbols are lost. The repair symbols, projected onto the
//! free ones, give a small system; its solution determines the lost symbols.

use crate::base::EncodingPacket;
use crate::constraint_matrix::{
    generate_hdpc_rows, hdpc_coefs, ldpc_coefs, ldpc_rows, lt_coefs, lt_row, nonzero_columns,
};
use crate::elimination::{
    all_wf, are_pivots, eliminate_pivots, forward_eliminate, lemma_pivots_cover, only_free,
    row_equations, same_modulo,
};
use crate::gf256::lemma_xor;
use crate::linear::{all_met, all_shaped, combination, dot, slice_at, trivial_kernel, Equation};
use crate::reception::{
    missing, optional_bytes, packet_symbols, reception, source_equations, Reception,
};
use crate::reception_laws::law_success_in_numbers;
use crate::reduced_system::{is_null_vector, solve_reduced};
use crate::reduction::{
    are_projections, evaluate_row, free_columns, holds_values, is_reduction, is_solved,
    lemma_columns, lemma_free_count, lemma_only_free_confined, lemma_regular, lemma_singular,
    lemma_small_system, lemma_solution_exists, lemma_solution_free,
};
use crate::sparse_row::{lemma_row_lists, lists, SparseRow};
use crate::sub_blocks::{assemble_block, symbol_bytes};
use crate::symbol::{zero_bytes, Symbol};
use crate::systematic_constants::{BlockParameters, CodeTables, CodeView};
use vstd::prelude::*;

verus! {

/// Largest number of lost symbols that the reduced decoding handles. Beyond it the small system is
/// no cheaper to solve than the whole one.
pub const REDUCED_LOST_THRESHOLD: u32 = 16;

/// Smallest number of source symbols for which the reduced decoding pays.
pub const REDUCED_MIN_SYMBOLS: u32 = 24;

/// Lists the positions of the missing symbols.
fn lost_positions(source_symbols: &[Option<Symbol>]) -> (lost: Vec<u32>)
    requires
        source_symbols@.len() <= u32::MAX,
    ensures
        lost@.map_values(|i: u32| i as int) == missing(optional_bytes(source_symbols@)),
{
    let ghost sources = optional_bytes(source_symbols@);
    let mut lost: Vec<u32> = Vec::new();
    let mut i: usize = 0;
    proof {
        assert(sources.take(0) =~= Seq::<Option<Seq<u8>>>::empty());
        assert(lost@.map_values(|i: u32| i as int) =~= missing(sources.take(0)));
    }
    while i < source_symbols.len()
        invariant
            i <= source_symbols@.len(),
            source_symbols@.len() <= u32::MAX,
            sources == optional_bytes(source_symbols@),
            lost@.map_values(|i: u32| i as int) == missing(sources.take(i as int)),
        decreases source_symbols@.len() - i,
    {
        let ghost before = lost@;
        proof {
            assert(sources.take(i + 1).drop_last() =~= sources.take(i as int));
            assert(sources.take(i + 1).last() == sources[i as int]);
        }
        if source_symbols[i].is_none() {
            lost.push(i as u32);
            proof {
                assert(lost@.map_values(|i: u32| i as int) =~= before.map_values(
                    |i: u32| i as int,
                ).push(i as int));
            }
        }
        i = i + 1;
    }
    proof {
        assert(sources.take(sources.len() as int) =~= sources);
    }
    lost
}

/// Adds the row for the listed coefficients.
fn push_row(
    rows: &mut Vec<SparseRow>,
    cols: Vec<(u32, u8)>,
    rhs: Symbol,
    Ghost(coefs): Ghost<Seq<u8>>,
)
    requires
        lists(cols@, coefs),
        all_wf(old(rows)@, coefs.len(), rhs@.len()),
    ensures
        all_wf(final(rows)@, coefs.len(), rhs@.len()),
        row_equations(final(rows)@, coefs.len()) == row_equations(old(rows)@, coefs.len()).push(
            Equation { coefs, rhs: rhs@ },
        ),
{
    let ghost before = rows@;
    let ghost listed = cols@;
    let row: SparseRow = SparseRow::new(cols, rhs);
    proof {
        lemma_row_lists(row, listed, coefs);
    }
    rows.push(row);
    proof {
        assert(row_equations(rows@, coefs.len()) =~= row_equations(before, coefs.len()).push(
            Equation { coefs, rhs: rhs@ },
        ));
    }
}

/// Builds the constraint rows: the source symbols that have arrived, the padding, the LDPC and the
/// HDPC relations.
fn constraint_rows(
    tables: &CodeTables,
    params: &BlockParameters,
    p1: u32,
    source_block_symbols: u32,
    symbol_size: u16,
    source_symbols: &[Option<Symbol>],
    Ghost(rec): Ghost<Reception>,
) -> (rows: Vec<SparseRow>)
    requires
        params.valid(),
        p1 == params.p1(),
        *params == rec.params(),
        source_block_symbols <= params.kprime,
        source_symbols@.len() <= u32::MAX,
        rec.code == tables@,
        rec.block_symbols == source_block_symbols,
        rec.symbol_size == symbol_size,
        rec.sources == optional_bytes(source_symbols@),
        rec.sized(),
    ensures
        all_wf(rows@, rec.width(), rec.symbol_size),
        row_equations(rows@, rec.width()) == rec.constraints(),
{
    let ghost n = rec.width();
    let ghost size = rec.symbol_size;
    let ghost code = tables@;
    let ghost sources = rec.sources;
    let zero: Symbol = Symbol::zero(symbol_size as usize);
    let mut rows: Vec<SparseRow> = Vec::new();
    let mut i: usize = 0;
    proof {
        assert(sources.take(0) =~= Seq::<Option<Seq<u8>>>::empty());
        assert(row_equations(rows@, n) =~= source_equations(code, *params, sources.take(0)));
    }
    while i < source_symbols.len()
        invariant
            i <= source_symbols@.len(),
            source_symbols@.len() <= u32::MAX,
            params.valid(),
            p1 == params.p1(),
            code == tables@,
            n == params.total(),
            sources == optional_bytes(source_symbols@),
            forall|k: int|
                0 <= k < sources.len() && (#[trigger] sources[k]) is Some ==> sources[k]->0.len()
                    == size,
            all_wf(rows@, n, size),
            row_equations(rows@, n) == source_equations(code, *params, sources.take(i as int)),
        decreases source_symbols@.len() - i,
    {
        proof {
            assert(sources.take(i + 1).drop_last() =~= sources.take(i as int));
            assert(sources.take(i + 1).last() == sources[i as int]);
        }
        if let Some(symbol) = &source_symbols[i] {
            let cols: Vec<(u32, u8)> = lt_row(tables, i as u32, params, p1);
            proof {
                assert(sources[i as int] is Some);
                assert(symbol@.len() == size);
            }
            push_row(
                &mut rows,
                cols,
                symbol.clone(),
                Ghost(lt_coefs(code, *params, i as int)),
            );
        }
        i = i + 1;
    }
    let ghost first = source_equations(code, *params, sources);
    let mut esi: u32 = source_block_symbols;
    proof {
        assert(sources.take(sources.len() as int) =~= sources);
        assert(first =~= first + rec.padding_equations().take(0));
    }
    while esi < params.kprime
        invariant
            source_block_symbols <= esi <= params.kprime,
            params.valid(),
            *params == rec.params(),
            p1 == params.p1(),
            code == tables@,
            rec.code == code,
            rec.block_symbols == source_block_symbols,
            rec.symbol_size == size,
            n == params.total(),
            zero@ == zero_bytes(size),
            all_wf(rows@, n, size),
            row_equations(rows@, n) == first + rec.padding_equations().take(
                esi - source_block_symbols,
            ),
        decreases params.kprime - esi,
    {
        let cols: Vec<(u32, u8)> = lt_row(tables, esi, params, p1);
        push_row(&mut rows, cols, zero.clone(), Ghost(lt_coefs(code, *params, esi as int)));
        proof {
            let all = rec.padding_equations();
            let k = esi - source_block_symbols;
            assert(all.take(k + 1) =~= all.take(k).push(all[k]));
            assert(row_equations(rows@, n) =~= first + all.take(k + 1));
        }
        esi = esi + 1;
    }
    let ghost second = first + rec.padding_equations();
    let mut ldpc: Vec<Vec<(u32, u8)>> = ldpc_rows(params);
    let mut i: usize = 0;
    proof {
        assert(rec.padding_equations().take(params.kprime - source_block_symbols)
            =~= rec.padding_equations());
        assert(second =~= second + rec.ldpc_equations().take(0));
    }
    while i < ldpc.len()
        invariant
            i <= ldpc@.len(),
            ldpc@.len() == params.ldpc_symbols,
            forall|k: int|
                i <= k < ldpc@.len() ==> lists((#[trigger] ldpc@[k])@, ldpc_coefs(*params, k)),
            *params == rec.params(),
            rec.symbol_size == size,
            n == params.total(),
            zero@ == zero_bytes(size),
            all_wf(rows@, n, size),
            row_equations(rows@, n) == second + rec.ldpc_equations().take(i as int),
        decreases ldpc@.len() - i,
    {
        let ghost coefs = ldpc_coefs(*params, i as int);
        assert(lists(ldpc@[i as int]@, coefs));
        let mut cols: Vec<(u32, u8)> = Vec::new();
        std::mem::swap(&mut cols, &mut ldpc[i]);
        push_row(&mut rows, cols, zero.clone(), Ghost(coefs));
        proof {
            let all = rec.ldpc_equations();
            assert(all.take(i + 1) =~= all.take(i as int).push(all[i as int]));
            assert(row_equations(rows@, n) =~= second + all.take(i + 1));
        }
        i = i + 1;
    }
    let ghost third = second + rec.ldpc_equations();
    let hdpc: Vec<Vec<u8>> = generate_hdpc_rows(tables, params);
    let mut i: usize = 0;
    proof {
        assert(rec.ldpc_equations().take(params.ldpc_symbols as int) =~= rec.ldpc_equations());
        assert(third =~= third + rec.hdpc_equations().take(0));
    }
    while i < hdpc.len()
        invariant
            i <= hdpc@.len(),
            hdpc@.len() == params.hdpc_symbols,
            forall|k: int|
                0 <= k < hdpc@.len() ==> (#[trigger] hdpc@[k])@ == hdpc_coefs(code, *params, k),
            params.valid(),
            *params == rec.params(),
            rec.code == code,
            rec.symbol_size == size,
            n == params.total(),
            zero@ == zero_bytes(size),
            all_wf(rows@, n, size),
            row_equations(rows@, n) == third + rec.hdpc_equations().take(i as int),
        decreases hdpc@.len() - i,
    {
        let ghost coefs = hdpc_coefs(code, *params, i as int);
        assert(hdpc@[i as int]@ == coefs);
        let cols: Vec<(u32, u8)> = nonzero_columns(&hdpc[i]);
        push_row(&mut rows, cols, zero.clone(), Ghost(coefs));
        proof {
            let all = rec.hdpc_equations();
            assert(all.take(i + 1) =~= all.take(i as int).push(all[i as int]));
            assert(row_equations(rows@, n) =~= third + all.take(i + 1));
        }
        i = i + 1;
    }
    proof {
        assert(rec.hdpc_equations().take(params.hdpc_symbols as int) =~= rec.hdpc_equations());
    }
    rows
}

/// Turns the repair symbols, as many as symbols are lost, into equations over the free columns.
fn project_repairs(
    tables: &CodeTables,
    params: &BlockParameters,
    p1: u32,
    source_block_symbols: u32,
    repair_packets: &[EncodingPacket],
    count: usize,
    pivots: &[SparseRow],
    is_free: &[bool],
    Ghost(rec): Ghost<Reception>,
) -> (projected: Vec<SparseRow>)
    requires
        params.valid(),
        p1 == params.p1(),
        *params == rec.params(),
        source_block_symbols <= params.kprime,
        rec.code == tables@,
        rec.block_symbols == source_block_symbols,
        rec.repairs == packet_symbols(repair_packets@),
        rec.sized(),
        count == rec.lost().len(),
        count <= repair_packets@.len(),
        is_free@.len() == rec.width(),
        are_pivots(pivots@, is_free@, rec.symbol_size),
    ensures
        are_projections(
            projected@,
            rec.repair_equations(),
            pivots@,
            is_free@,
            rec.symbol_size,
        ),
{
    let ghost n = rec.width();
    let ghost size = rec.symbol_size;
    let ghost eqs = rec.repair_equations();
    let num_padding_symbols: u32 = params.kprime - source_block_symbols;
    let mut projected: Vec<SparseRow> = Vec::with_capacity(count);
    let mut i: usize = 0;
    while i < count
        invariant
            i <= count,
            count <= repair_packets@.len(),
            params.valid(),
            p1 == params.p1(),
            *params == rec.params(),
            num_padding_symbols == params.kprime - source_block_symbols,
            rec.code == tables@,
            rec.block_symbols == source_block_symbols,
            rec.repairs == packet_symbols(repair_packets@),
            rec.sized(),
            count == rec.lost().len(),
            n == rec.width(),
            n == is_free@.len(),
            size == rec.symbol_size,
            eqs == rec.repair_equations(),
            are_pivots(pivots@, is_free@, size),
            projected@.len() == i,
            all_wf(projected@, n, size),
            forall|k: int| 0 <= k < i ==> only_free(#[trigger] projected@[k], is_free@),
            forall|k: int|
                0 <= k < i ==> same_modulo(
                    pivots@,
                    n,
                    size,
                    eqs[k],
                    (#[trigger] projected@[k]).equation(n),
                ),
        decreases count - i,
    {
        let packet: &EncodingPacket = &repair_packets[i];
        let esi: u32 = packet.payload_id.encoding_symbol_id() + num_padding_symbols;
        let data: Vec<u8> = packet.data.clone();
        proof {
            assert(data@ =~= packet.data@);
            assert(rec.repairs[i as int] == (packet.payload_id.esi() as int, packet.data@));
        }
        let cols: Vec<(u32, u8)> = lt_row(tables, esi, params, p1);
        let ghost coefs = lt_coefs(tables@, *params, esi as int);
        let ghost listed = cols@;
        let mut row: SparseRow = SparseRow::new(cols, Symbol::new(data));
        proof {
            lemma_row_lists(row, listed, coefs);
            assert(row.equation(n) == eqs[i as int]);
            lemma_pivots_cover(pivots@, is_free@, size);
        }
        eliminate_pivots(&mut row, pivots, is_free);
        projected.push(row);
        i = i + 1;
    }
    projected
}

/// Computes the lost symbols from the values of the free columns.
fn rebuild_symbols(
    tables: &CodeTables,
    params: &BlockParameters,
    p1: u32,
    symbol_size: u16,
    lost: &[u32],
    pivots: &[SparseRow],
    is_free: &[bool],
    columns: &[u32],
    solved: &[SparseRow],
    Ghost(rec): Ghost<Reception>,
    Ghost(projected): Ghost<Seq<SparseRow>>,
) -> (rebuilt: Vec<Symbol>)
    requires
        params.valid(),
        p1 == params.p1(),
        *params == rec.params(),
        rec.code == tables@,
        rec.symbol_size == symbol_size,
        is_free@.len() == rec.width(),
        is_reduction(
            rec.constraints(),
            rec.repair_equations(),
            pivots@,
            is_free@,
            columns@,
            projected,
            rec.symbol_size,
        ),
        is_solved(solved@, projected, columns@, rec.width(), rec.symbol_size),
    ensures
        rebuilt@.len() == lost@.len(),
        forall|j: int|
            0 <= j < rebuilt@.len() ==> (#[trigger] rebuilt@[j])@.len() == rec.symbol_size,
        forall|x: Seq<Seq<u8>>, j: int|
            #[trigger] rec.is_solution(x) && 0 <= j < rebuilt@.len() ==> (
            #[trigger] rebuilt@[j])@ == combination(
                lt_coefs(tables@, *params, lost@[j] as int),
                x,
                rec.symbol_size,
            ),
{
    let ghost n = rec.width();
    let ghost size = rec.symbol_size;
    let mut alpha: Vec<Symbol> = Vec::with_capacity(solved.len());
    let mut k: usize = 0;
    while k < solved.len()
        invariant
            k <= solved@.len(),
            alpha@.len() == k,
            forall|l: int| 0 <= l < k ==> (#[trigger] alpha@[l])@ == solved@[l].rhs@,
        decreases solved@.len() - k,
    {
        alpha.push(solved[k].rhs.clone());
        k = k + 1;
    }
    let mut rebuilt: Vec<Symbol> = Vec::with_capacity(lost.len());
    let mut j: usize = 0;
    while j < lost.len()
        invariant
            j <= lost@.len(),
            params.valid(),
            p1 == params.p1(),
            *params == rec.params(),
            rec.code == tables@,
            rec.symbol_size == symbol_size,
            n == rec.width(),
            n == is_free@.len(),
            size == rec.symbol_size,
            is_reduction(
                rec.constraints(),
                rec.repair_equations(),
                pivots@,
                is_free@,
                columns@,
                projected,
                size,
            ),
            is_solved(solved@, projected, columns@, n, size),
            alpha@.len() == solved@.len(),
            forall|l: int| 0 <= l < alpha@.len() ==> (#[trigger] alpha@[l])@ == solved@[l].rhs@,
            rebuilt@.len() == j,
            forall|i: int| 0 <= i < j ==> (#[trigger] rebuilt@[i])@.len() == size,
            forall|x: Seq<Seq<u8>>, i: int|
                #[trigger] rec.is_solution(x) && 0 <= i < j ==> (#[trigger] rebuilt@[i])@
                    == combination(lt_coefs(tables@, *params, lost@[i] as int), x, size),
        decreases lost@.len() - j,
    {
        let esi: u32 = lost[j];
        let cols: Vec<(u32, u8)> = lt_row(tables, esi, params, p1);
        let ghost coefs = lt_coefs(tables@, *params, esi as int);
        let ghost listed = cols@;
        let mut row: SparseRow = SparseRow::new(cols, Symbol::zero(symbol_size as usize));
        proof {
            lemma_row_lists(row, listed, coefs);
            lemma_pivots_cover(pivots@, is_free@, size);
        }
        let ghost target = row.equation(n);
        eliminate_pivots(&mut row, pivots, is_free);
        let ghost reduced = row;
        proof {
            lemma_columns(columns@, is_free@);
            lemma_only_free_confined(row, is_free@, columns@, size);
            assert forall|l: int| 0 <= l < alpha@.len() implies (#[trigger] alpha@[l])@.len()
                == size by {
                assert(solved@[l].wf(n, size));
            }
        }
        let symbol: Symbol = evaluate_row(row, columns, alpha.as_slice(), Ghost(n));
        proof {
            assert forall|x: Seq<Seq<u8>>| #[trigger] rec.is_solution(x) implies symbol@
                == combination(coefs, x, size) by {
                assert forall|t: int| 0 <= t < size implies symbol@[t] == #[trigger] combination(
                    coefs,
                    x,
                    size,
                )[t] by {
                    let v = slice_at(x, t);
                    assert(all_met(rec.system(), v, t, true));
                    lemma_solution_free(
                        rec.constraints(),
                        rec.repair_equations(),
                        pivots@,
                        is_free@,
                        columns@,
                        projected,
                        solved@,
                        size,
                        v,
                        t,
                    );
                    assert forall|l: int| 0 <= l < columns@.len() implies v[
                        #[trigger] columns@[l] as int
                    ] == alpha@[l]@[t] by {
                        assert(alpha@[l]@ == solved@[l].rhs@);
                    }
                    assert(holds_values(v, columns@, alpha@, t));
                    assert(symbol@[t] == reduced.equation(n).gap(v, t, true));
                    assert(same_modulo(pivots@, n, size, target, reduced.equation(n)));
                    assert(target.gap(v, t, true) == reduced.equation(n).gap(v, t, true));
                    lemma_xor(target.gap(v, t, true), 0, 0);
                    assert(target.target(t, true) == 0);
                    lemma_xor(dot(coefs, v), 0, 0);
                }
                assert(symbol@ =~= combination(coefs, x, size));
            }
        }
        rebuilt.push(symbol);
        j = j + 1;
    }
    rebuilt
}

/// The symbols missing from a prefix are the first of those missing from the whole.
proof fn lemma_missing_prefix(sources: Seq<Option<Seq<u8>>>, i: int)
    requires
        0 <= i <= sources.len(),
    ensures
        missing(sources.take(i)).len() <= missing(sources).len(),
        forall|j: int|
            0 <= j < missing(sources.take(i)).len() ==> #[trigger] missing(sources)[j] == missing(
                sources.take(i),
            )[j],
    decreases sources.len() - i,
{
    if i == sources.len() {
        assert(sources.take(i) =~= sources);
    } else {
        lemma_missing_prefix(sources, i + 1);
        assert(sources.take(i + 1).drop_last() =~= sources.take(i));
        assert forall|j: int| 0 <= j < missing(sources.take(i)).len() implies #[trigger] missing(
            sources,
        )[j] == missing(sources.take(i))[j] by {
            assert(missing(sources.take(i + 1))[j] == missing(sources.take(i))[j]);
        }
    }
}

/// Puts the source symbols of the block together: those that have arrived, and the rebuilt ones in
/// the place of the lost ones. `None` where a symbol of the block is neither.
fn collect_symbols(
    source_block_symbols: u32,
    source_symbols: &[Option<Symbol>],
    lost: &[u32],
    rebuilt: &[Symbol],
    Ghost(rec): Ghost<Reception>,
) -> (r: Option<Vec<Symbol>>)
    requires
        rec.block_symbols == source_block_symbols,
        rec.sources == optional_bytes(source_symbols@),
        rec.sized(),
        source_symbols@.len() <= u32::MAX,
        lost@.map_values(|i: u32| i as int) == rec.lost(),
        rebuilt@.len() == lost@.len(),
        forall|j: int|
            0 <= j < rebuilt@.len() ==> (#[trigger] rebuilt@[j])@.len() == rec.symbol_size,
        forall|x: Seq<Seq<u8>>, j: int|
            #[trigger] rec.is_solution(x) && 0 <= j < rebuilt@.len() ==> (
            #[trigger] rebuilt@[j])@ == combination(
                lt_coefs(rec.code, rec.params(), lost@[j] as int),
                x,
                rec.symbol_size,
            ),
    ensures
        r is Some <==> source_symbols@.len() >= source_block_symbols,
        r matches Some(symbols) ==> {
            &&& symbols@.len() == source_block_symbols
            &&& forall|i: int|
                0 <= i < symbols@.len() ==> (#[trigger] symbols@[i])@.len() == rec.symbol_size
            &&& forall|x: Seq<Seq<u8>>|
                #[trigger] rec.is_solution(x) ==> symbol_bytes(symbols@) == rec.source_symbols(x)
        },
{
    let ghost sources = rec.sources;
    let mut symbols: Vec<Symbol> = Vec::with_capacity(source_block_symbols as usize);
    let mut i: usize = 0;
    let mut j: usize = 0;
    proof {
        assert(sources.take(0) =~= Seq::<Option<Seq<u8>>>::empty());
    }
    while i < source_block_symbols as usize
        invariant
            i <= source_block_symbols,
            i <= source_symbols@.len(),
            sources == optional_bytes(source_symbols@),
            sources == rec.sources,
            rec.sized(),
            source_symbols@.len() <= u32::MAX,
            lost@.map_values(|i: u32| i as int) == rec.lost(),
            rebuilt@.len() == lost@.len(),
            forall|j: int|
                0 <= j < rebuilt@.len() ==> (#[trigger] rebuilt@[j])@.len() == rec.symbol_size,
            forall|x: Seq<Seq<u8>>, j: int|
                #[trigger] rec.is_solution(x) && 0 <= j < rebuilt@.len() ==> (
                #[trigger] rebuilt@[j])@ == combination(
                    lt_coefs(rec.code, rec.params(), lost@[j] as int),
                    x,
                    rec.symbol_size,
                ),
            j == missing(sources.take(i as int)).len(),
            symbols@.len() == i,
            forall|k: int|
                0 <= k < symbols@.len() ==> (#[trigger] symbols@[k])@.len() == rec.symbol_size,
            forall|x: Seq<Seq<u8>>, k: int|
                #[trigger] rec.is_solution(x) && 0 <= k < i ==> (#[trigger] symbols@[k])@
                    == rec.source_symbol(x, k),
        decreases source_block_symbols - i,
    {
        if i >= source_symbols.len() {
            return None;
        }
        let ghost before = symbols@;
        proof {
            assert(sources.take(i + 1).drop_last() =~= sources.take(i as int));
            assert(sources.take(i + 1).last() == sources[i as int]);
            lemma_missing_prefix(sources, i + 1);
        }
        match &source_symbols[i] {
            Some(symbol) => {
                proof {
                    assert(sources[i as int] == Some(symbol@));
                }
                symbols.push(symbol.clone());
            },
            None => {
                proof {
                    assert(sources[i as int] is None);
                    assert(missing(sources.take(i + 1))[j as int] == i);
                    assert(rec.lost()[j as int] == i);
                    assert(lost@.map_values(|i: u32| i as int)[j as int] == i);
                    assert(lost@[j as int] == i);
                }
                symbols.push(rebuilt[j].clone());
                j = j + 1;
            },
        }
        i = i + 1;
    }
    proof {
        assert forall|x: Seq<Seq<u8>>| #[trigger] rec.is_solution(x) implies symbol_bytes(symbols@)
            == rec.source_symbols(x) by {
            assert(symbol_bytes(symbols@) =~= rec.source_symbols(x));
        }
    }
    Some(symbols)
}

/// The constraints and the repair equations have the shape of the block.
pub proof fn lemma_shapes(rec: Reception)
    requires
        rec.sized(),
    ensures
        all_shaped(rec.constraints(), rec.width(), rec.symbol_size),
        all_shaped(rec.repair_equations(), rec.width(), rec.symbol_size),
{
    lemma_source_shapes(rec.code, rec.params(), rec.sources, rec.symbol_size);
    let all = rec.constraints();
    let first = source_equations(rec.code, rec.params(), rec.sources);
    assert forall|i: int| 0 <= i < all.len() implies (#[trigger] all[i]).shaped(
        rec.width(),
        rec.symbol_size,
    ) by {
        if i < first.len() {
            assert(all[i] == first[i]);
        }
    }
}

proof fn lemma_source_shapes(
    code: CodeView,
    params: BlockParameters,
    sources: Seq<Option<Seq<u8>>>,
    size: nat,
)
    requires
        forall|i: int|
            0 <= i < sources.len() && (#[trigger] sources[i]) is Some ==> sources[i]->0.len()
                == size,
    ensures
        all_shaped(source_equations(code, params, sources), params.total() as nat, size),
    decreases sources.len(),
{
    if sources.len() > 0 {
        let shorter = sources.drop_last();
        assert forall|i: int| 0 <= i < shorter.len() && (#[trigger] shorter[i]) is Some implies
            shorter[i]->0.len() == size by {
            assert(shorter[i] == sources[i]);
        }
        lemma_source_shapes(code, params, shorter, size);
        assert(sources.last() == sources[sources.len() - 1]);
    }
}

/// Attempts the reduced decoding of a block.
///
/// Returns the block, or `None` where the reduced decoding does not apply (no symbol is lost, too
/// many are, the block is small, repair symbols are wanting) or does not succeed (the constraints
/// or the small system are singular). The caller then falls back to solving for all intermediate
/// symbols.
pub fn try_reduced_decode(
    tables: &CodeTables,
    source_block_symbols: u32,
    symbol_size: u16,
    num_sub_blocks: u16,
    symbol_alignment: u8,
    source_symbols: &[Option<Symbol>],
    repair_packets: &[EncodingPacket],
) -> (r: Option<Vec<u8>>)
    requires
        source_block_symbols <= tables@.capacity(),
        source_symbols@.len() <= u32::MAX,
        ({
            let rec = reception(
                tables@,
                source_block_symbols,
                symbol_size,
                source_symbols@,
                repair_packets@,
            );
            &&& rec.applies() ==> rec.sized()
            &&& rec.recoverable() ==> num_sub_blocks > 0 && symbol_alignment > 0
        }),
    ensures
        ({
            let rec = reception(
                tables@,
                source_block_symbols,
                symbol_size,
                source_symbols@,
                repair_packets@,
            );
            &&& r is Some <==> rec.recoverable() && source_block_symbols <= source_symbols@.len()
            &&& r is Some ==> {
                &&& 1 <= missing(rec.sources).len() <= 16
                &&& 24 <= source_block_symbols
                &&& missing(rec.sources).len() <= repair_packets@.len()
            }
            &&& {
                &&& source_symbols@.len() == source_block_symbols
                &&& 1 <= missing(rec.sources).len() <= 16
                &&& 24 <= source_block_symbols
                &&& missing(rec.sources).len() <= repair_packets@.len()
                &&& trivial_kernel(rec.constraints() + rec.repair_equations(), rec.width())
            } ==> r is Some
            &&& r matches Some(block) ==> rec.decodes_to(
                block@,
                num_sub_blocks as int,
                symbol_alignment as int,
            )
        }),
{
    let ghost rec = reception(
        tables@,
        source_block_symbols,
        symbol_size,
        source_symbols@,
        repair_packets@,
    );
    let params: BlockParameters = tables.block_parameters(source_block_symbols);
    proof {
        if source_symbols@.len() == source_block_symbols {
            law_success_in_numbers(rec);
        }
    }
    let p1: u32 = params.calculate_p1();
    let total: usize = params.num_intermediate_symbols() as usize;
    let lost: Vec<u32> = lost_positions(source_symbols);
    proof {
        assert(lost@.len() == lost@.map_values(|i: u32| i as int).len());
    }
    if lost.len() == 0 || lost.len() > REDUCED_LOST_THRESHOLD as usize || source_block_symbols
        < REDUCED_MIN_SYMBOLS || repair_packets.len() < lost.len() {
        return None;
    }
    let ghost n = rec.width();
    let ghost size = rec.symbol_size;
    proof {
        lemma_shapes(rec);
    }
    let rows: Vec<SparseRow> = constraint_rows(
        tables,
        &params,
        p1,
        source_block_symbols,
        symbol_size,
        source_symbols,
        Ghost(rec),
    );
    let (pivots, is_free) = forward_eliminate(rows.as_slice(), total, Ghost(size));
    let columns: Vec<u32> = free_columns(is_free.as_slice());
    proof {
        lemma_free_count(pivots@, is_free@, columns@, size);
    }
    if columns.len() != lost.len() {
        return None;
    }
    let projected: Vec<SparseRow> = project_repairs(
        tables,
        &params,
        p1,
        source_block_symbols,
        repair_packets,
        lost.len(),
        pivots.as_slice(),
        is_free.as_slice(),
        Ghost(rec),
    );
    let ghost small = projected@;
    proof {
        assert(is_reduction(
            rec.constraints(),
            rec.repair_equations(),
            pivots@,
            is_free@,
            columns@,
            small,
            size,
        ));
        lemma_small_system(small, rec.repair_equations(), pivots@, is_free@, columns@, size);
    }
    let solved: Vec<SparseRow> = match solve_reduced(
        projected,
        columns.as_slice(),
        Ghost(n),
        Ghost(size),
    ) {
        Some(solved) => solved,
        None => {
            proof {
                let v = choose|v: Seq<u8>| is_null_vector(v, small, columns@, n);
                lemma_singular(
                    rec.constraints(),
                    rec.repair_equations(),
                    pivots@,
                    is_free@,
                    columns@,
                    small,
                    size,
                    v,
                );
            }
            return None;
        },
    };
    proof {
        lemma_regular(
            rec.constraints(),
            rec.repair_equations(),
            pivots@,
            is_free@,
            columns@,
            small,
            solved@,
            size,
        );
        let x = lemma_solution_exists(
            rec.constraints(),
            rec.repair_equations(),
            pivots@,
            is_free@,
            columns@,
            small,
            solved@,
            size,
        );
        assert(rec.is_solution(x));
    }
    let rebuilt: Vec<Symbol> = rebuild_symbols(
        tables,
        &params,
        p1,
        symbol_size,
        lost.as_slice(),
        pivots.as_slice(),
        is_free.as_slice(),
        columns.as_slice(),
        solved.as_slice(),
        Ghost(rec),
        Ghost(small),
    );
    let symbols: Vec<Symbol> = match collect_symbols(
        source_block_symbols,
        source_symbols,
        lost.as_slice(),
        rebuilt.as_slice(),
        Ghost(rec),
    ) {
        Some(symbols) => symbols,
        None => {
            return None;
        },
    };
    proof {
        assert(symbols@.len() * symbol_size <= 56403 * 65535) by (nonlinear_arith)
            requires
                symbols@.len() <= 56403,
                symbol_size <= 65535,
        ;
    }
    let block: Vec<u8> = assemble_block(
        symbols.as_slice(),
        symbol_size,
        num_sub_blocks,
        symbol_alignment,
    );
    Some(block)
}

} // verus!
