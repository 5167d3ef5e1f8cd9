//! The rows of the constraint matrix.

use crate::base::{intermediate_tuple, tuple_in_range, tuple_of, IntermediateTuple};
use crate::gf256::{gf_alpha, gf_mul, lemma_mul_units, lemma_xor};
use crate::octet::Octet;
use crate::primes::{is_prime, lemma_step, lemma_steps_distinct, lemma_steps_reach, stepped};
use crate::rng::{rand, random_value};
use crate::sparse_row::{
    coef, distinct_columns, increasing_columns, lemma_coef_absent, lemma_coef_append,
    lemma_coef_present, lists,
};
use crate::systematic_constants::{lemma_p1, BlockParameters, CodeTables, CodeView};
use vstd::prelude::*;

verus! {

/// From step `from` on, step `k` is the first to hit a value below `p`.
pub open spec fn first_below(b: int, a: int, m: int, p: int, from: int, k: int) -> bool {
    &&& from <= k
    &&& stepped(b, a, m, k) < p
    &&& forall|j: int| from <= j < k ==> #[trigger] stepped(b, a, m, j) >= p
}

/// The step at which PI symbol `i` is found: each is the first hit below `p` after the one before.
pub open spec fn pi_step(b: int, a: int, m: int, p: int, i: int) -> int
    decreases i,
{
    let from = if i <= 0 {
        0
    } else {
        pi_step(b, a, m, p, i - 1) + 1
    };
    choose|k: int| first_below(b, a, m, p, from, k)
}

/// The intermediate symbols whose sum is the encoding symbol with the given tuple.
pub open spec fn enc_columns(tuple: IntermediateTuple, w: int, p: int, p1: int) -> Seq<int> {
    Seq::new(tuple.d as nat, |i: int| stepped(tuple.b as int, tuple.a as int, w, i)) + Seq::new(
        tuple.d1 as nat,
        |i: int|
            w + stepped(
                tuple.b1 as int,
                tuple.a1 as int,
                p1,
                pi_step(tuple.b1 as int, tuple.a1 as int, p1, p, i),
            ),
    )
}

proof fn lemma_first_below_unique(b: int, a: int, m: int, p: int, from: int, k: int, l: int)
    requires
        first_below(b, a, m, p, from, k),
        first_below(b, a, m, p, from, l),
    ensures
        k == l,
{
    if k < l {
        assert(stepped(b, a, m, k) >= p);
    }
    if l < k {
        assert(stepped(b, a, m, l) >= p);
    }
}

proof fn lemma_first_below_search(b: int, a: int, m: int, p: int, from: int, at: int) -> (k: int)
    requires
        from <= at,
        stepped(b, a, m, at) < p,
    ensures
        first_below(b, a, m, p, from, k),
        k <= at,
    decreases at - from,
{
    if stepped(b, a, m, from) < p {
        from
    } else {
        let k = lemma_first_below_search(b, a, m, p, from + 1, at);
        assert forall|j: int| from <= j < k implies #[trigger] stepped(b, a, m, j) >= p by {}
        k
    }
}

/// The step of each PI symbol is indeed the first hit after the one before.
pub proof fn lemma_pi_step(b: int, a: int, m: int, p: int, i: int)
    requires
        is_prime(m),
        0 < a < m,
        0 < p <= m,
        0 <= i,
    ensures
        first_below(
            b,
            a,
            m,
            p,
            if i == 0 {
                0
            } else {
                pi_step(b, a, m, p, i - 1) + 1
            },
            pi_step(b, a, m, p, i),
        ),
    decreases i,
{
    if i > 0 {
        lemma_pi_step(b, a, m, p, i - 1);
    }
    let from = if i == 0 {
        0
    } else {
        pi_step(b, a, m, p, i - 1) + 1
    };
    let at = lemma_steps_reach(b, a, m, from, 0);
    let k = lemma_first_below_search(b, a, m, p, from, at);
    assert(first_below(b, a, m, p, from, k));
}

/// The steps of the first three PI symbols increase and lie within one period.
proof fn lemma_pi_period(b: int, a: int, m: int, p: int)
    requires
        is_prime(m),
        0 < a < m,
        3 <= p <= m,
    ensures
        0 <= pi_step(b, a, m, p, 0) < pi_step(b, a, m, p, 1) < pi_step(b, a, m, p, 2),
        pi_step(b, a, m, p, 2) < pi_step(b, a, m, p, 0) + m,
{
    lemma_pi_step(b, a, m, p, 0);
    lemma_pi_step(b, a, m, p, 1);
    lemma_pi_step(b, a, m, p, 2);
    let s0 = pi_step(b, a, m, p, 0);
    let s1 = pi_step(b, a, m, p, 1);
    let s2 = pi_step(b, a, m, p, 2);
    let k0 = lemma_steps_reach(b, a, m, s0, 0);
    let k1 = lemma_steps_reach(b, a, m, s0, 1);
    let k2 = lemma_steps_reach(b, a, m, s0, 2);
    if s2 >= s0 + m {
        // Between s0 and the end of the period only s1 is below p, yet three steps are.
        assert forall|j: int| s0 < j < s0 + m && j != s1 implies #[trigger] stepped(b, a, m, j)
            >= p by {
            if j < s1 {
                assert(s0 + 1 <= j);
            } else {
                assert(s1 + 1 <= j);
            }
        }
        assert(k0 == s0 || k0 == s1);
        assert(k1 == s0 || k1 == s1);
        assert(k2 == s0 || k2 == s1);
    }
}

/// The columns of an encoding symbol are distinct and in range.
pub proof fn lemma_enc_columns(tuple: IntermediateTuple, w: int, p: int, p1: int)
    requires
        is_prime(w),
        is_prime(p1),
        3 <= p <= p1,
        tuple_in_range(tuple, w, p1),
    ensures
        enc_columns(tuple, w, p, p1).len() == tuple.d + tuple.d1,
        forall|i: int|
            0 <= i < tuple.d + tuple.d1 ==> 0 <= #[trigger] enc_columns(tuple, w, p, p1)[i] < w + p,
        enc_columns(tuple, w, p, p1).no_duplicates(),
{
    let columns = enc_columns(tuple, w, p, p1);
    let b = tuple.b as int;
    let a = tuple.a as int;
    let b1 = tuple.b1 as int;
    let a1 = tuple.a1 as int;
    let d = tuple.d as int;
    assert forall|i: int| 0 <= i < d implies 0 <= #[trigger] columns[i] < w by {
        vstd::arithmetic::div_mod::lemma_mod_bound(b + i * a, w);
    }
    assert forall|i: int| d <= i < columns.len() implies w <= #[trigger] columns[i] < w + p by {
        lemma_pi_step(b1, a1, p1, p, i - d);
        vstd::arithmetic::div_mod::lemma_mod_bound(b1 + pi_step(b1, a1, p1, p, i - d) * a1, p1);
    }
    lemma_pi_period(b1, a1, p1, p);
    assert forall|i: int, j: int| 0 <= i < j < columns.len() implies columns[i] != columns[j] by {
        if j < d {
            lemma_steps_distinct(b, a, w, i, j);
        } else if i >= d {
            let s = pi_step(b1, a1, p1, p, i - d);
            let t = pi_step(b1, a1, p1, p, j - d);
            assert((i - d == 0 && j - d == 1) || (i - d == 0 && j - d == 2) || (i - d == 1 && j - d
                == 2));
            assert(s < t < s + p1);
            lemma_steps_distinct(b1, a1, p1, s, t);
        }
    }
}

/// Steps from `value` on to the first value below `p`.
fn next_below(
    value: u32,
    a: u32,
    m: u32,
    p: u32,
    Ghost(b): Ghost<int>,
    Ghost(from): Ghost<int>,
) -> (r: (u32, Ghost<int>))
    requires
        is_prime(m as int),
        0 < a < m,
        0 < p <= m,
        m <= 0x1_0001,
        value == stepped(b, a as int, m as int, from),
    ensures
        first_below(b, a as int, m as int, p as int, from, r.1@),
        r.0 == stepped(b, a as int, m as int, r.1@),
        r.0 < p,
{
    let mut value: u32 = value;
    let ghost mut k: int = from;
    let ghost at = lemma_steps_reach(b, a as int, m as int, from, 0);
    proof {
        vstd::arithmetic::div_mod::lemma_mod_bound(b + from * a, m as int);
    }
    while value >= p
        invariant
            0 < a < m,
            0 < p <= m,
            m <= 0x1_0001,
            value == stepped(b, a as int, m as int, k),
            value < m,
            from <= k <= at,
            stepped(b, a as int, m as int, at) == 0,
            forall|j: int| from <= j < k ==> #[trigger] stepped(b, a as int, m as int, j) >= p,
        decreases at - k,
    {
        proof {
            lemma_step(b, a as int, m as int, k);
            assert(k != at);
            k = k + 1;
        }
        value = (value + a) % m;
    }
    (value, Ghost(k))
}

/// Lists the intermediate symbols whose sum is the encoding symbol with the given tuple.
pub fn enc_indices(
    source_tuple: IntermediateTuple,
    lt_symbols: u32,
    pi_symbols: u32,
    p1: u32,
) -> (r: Vec<usize>)
    requires
        is_prime(lt_symbols as int),
        is_prime(p1 as int),
        3 <= pi_symbols <= p1,
        p1 <= 0x1_0001,
        lt_symbols <= 0x1_0000,
        tuple_in_range(source_tuple, lt_symbols as int, p1 as int),
    ensures
        r@.map_values(|c: usize| c as int) == enc_columns(
            source_tuple,
            lt_symbols as int,
            pi_symbols as int,
            p1 as int,
        ),
{
    let w: u32 = lt_symbols;
    let p: u32 = pi_symbols;
    let IntermediateTuple { d, a, b, d1, a1, b1 } = source_tuple;
    let ghost columns = enc_columns(source_tuple, w as int, p as int, p1 as int);
    let mut indices: Vec<usize> = Vec::with_capacity((d + d1) as usize);
    let mut x: u32 = b;
    proof {
        vstd::arithmetic::div_mod::lemma_small_mod(b as nat, w as nat);
        vstd::arithmetic::div_mod::lemma_small_mod(b1 as nat, p1 as nat);
        assert(stepped(b as int, a as int, w as int, 0) == b);
        assert(stepped(b1 as int, a1 as int, p1 as int, 0) == b1);
    }
    indices.push(x as usize);
    let mut i: u32 = 1;
    while i < d
        invariant
            1 <= i <= d,
            d <= 30,
            a < w,
            w <= 0x1_0000,
            d == source_tuple.d,
            a == source_tuple.a,
            b == source_tuple.b,
            x < w,
            x == stepped(b as int, a as int, w as int, i - 1),
            columns == enc_columns(source_tuple, w as int, p as int, p1 as int),
            indices@.len() == i,
            forall|j: int| 0 <= j < i ==> #[trigger] indices@[j] == columns[j],
        decreases d - i,
    {
        proof {
            lemma_step(b as int, a as int, w as int, i - 1);
        }
        x = (x + a) % w;
        indices.push(x as usize);
        i = i + 1;
    }
    let (value, step) = next_below(b1, a1, p1, p, Ghost(b1 as int), Ghost(0int));
    let mut y: u32 = value;
    let ghost mut at: int = step@;
    proof {
        lemma_pi_step(b1 as int, a1 as int, p1 as int, p as int, 0);
        lemma_first_below_unique(
            b1 as int,
            a1 as int,
            p1 as int,
            p as int,
            0,
            at,
            pi_step(b1 as int, a1 as int, p1 as int, p as int, 0),
        );
    }
    indices.push((w + y) as usize);
    let mut i: u32 = 1;
    while i < d1
        invariant
            1 <= i <= d1,
            d1 <= 3,
            d <= 30,
            w <= 0x1_0000,
            p1 <= 0x1_0001,
            p <= p1,
            0 < p,
            0 < a1 < p1,
            is_prime(p1 as int),
            d == source_tuple.d,
            d1 == source_tuple.d1,
            a1 == source_tuple.a1,
            b1 == source_tuple.b1,
            y < p,
            at == pi_step(b1 as int, a1 as int, p1 as int, p as int, i - 1),
            y == stepped(b1 as int, a1 as int, p1 as int, at),
            columns == enc_columns(source_tuple, w as int, p as int, p1 as int),
            indices@.len() == d + i,
            forall|j: int| 0 <= j < d + i ==> #[trigger] indices@[j] == columns[j],
        decreases d1 - i,
    {
        proof {
            lemma_step(b1 as int, a1 as int, p1 as int, at);
        }
        let next: u32 = (y + a1) % p1;
        let (value, step) = next_below(next, a1, p1, p, Ghost(b1 as int), Ghost(at + 1));
        y = value;
        proof {
            lemma_pi_step(b1 as int, a1 as int, p1 as int, p as int, i as int);
            lemma_first_below_unique(
                b1 as int,
                a1 as int,
                p1 as int,
                p as int,
                at + 1,
                step@,
                pi_step(b1 as int, a1 as int, p1 as int, p as int, i as int),
            );
            at = step@;
        }
        indices.push((w + y) as usize);
        i = i + 1;
    }
    indices
}

/// The tuple of the encoding symbol with the given internal ID.
pub open spec fn lt_tuple(
    code: CodeView,
    params: BlockParameters,
    internal_symbol_id: int,
) -> IntermediateTuple {
    tuple_of(
        code,
        internal_symbol_id,
        params.lt_symbols as int,
        params.systematic_index as int,
        params.p1(),
    )
}

/// The columns of the encoding symbol with the given internal ID.
#[verifier::opaque]
pub open spec fn lt_columns(
    code: CodeView,
    params: BlockParameters,
    internal_symbol_id: int,
) -> Seq<int> {
    enc_columns(
        lt_tuple(code, params, internal_symbol_id),
        params.lt_symbols as int,
        params.pi(),
        params.p1(),
    )
}

/// The encoding symbol as a combination of the intermediate symbols.
pub open spec fn lt_coefs(
    code: CodeView,
    params: BlockParameters,
    internal_symbol_id: int,
) -> Seq<u8> {
    Seq::new(
        params.total() as nat,
        |c: int|
            if lt_columns(code, params, internal_symbol_id).contains(c) {
                1u8
            } else {
                0u8
            },
    )
}

/// Lists the coefficients of an encoding symbol, in the order in which its columns are found.
pub fn lt_row(tables: &CodeTables, esi: u32, params: &BlockParameters, p1: u32) -> (r: Vec<
    (u32, u8),
>)
    requires
        params.valid(),
        p1 == params.p1(),
    ensures
        r@.len() == lt_columns(tables@, *params, esi as int).len(),
        forall|i: int|
            0 <= i < r@.len() ==> #[trigger] r@[i] == (
                lt_columns(tables@, *params, esi as int)[i] as u32,
                1u8,
            ),
        lists(r@, lt_coefs(tables@, *params, esi as int)),
        1 <= r@.len() <= 33,
{
    proof {
        lemma_p1(*params);
    }
    let tuple: IntermediateTuple = intermediate_tuple(
        tables,
        esi,
        params.lt_symbols,
        params.systematic_index,
        p1,
    );
    let indices: Vec<usize> = enc_indices(tuple, params.lt_symbols, params.num_pi_symbols(), p1);
    let ghost columns = lt_columns(tables@, *params, esi as int);
    let ghost coefs = lt_coefs(tables@, *params, esi as int);
    proof {
        reveal(lt_columns);
        lemma_enc_columns(tuple, params.lt_symbols as int, params.pi(), p1 as int);
        assert(indices@.map_values(|c: usize| c as int) == columns);
        assert(indices@.len() == columns.len());
        assert forall|j: int| 0 <= j < columns.len() implies #[trigger] indices@[j]
            == columns[j] by {
            assert(indices@.map_values(|c: usize| c as int)[j] == columns[j]);
        }
    }
    let mut cols: Vec<(u32, u8)> = Vec::with_capacity(indices.len());
    let mut i: usize = 0;
    while i < indices.len()
        invariant
            i <= indices@.len(),
            params.valid(),
            columns.no_duplicates(),
            indices@.len() == columns.len(),
            forall|j: int| 0 <= j < columns.len() ==> #[trigger] indices@[j] == columns[j],
            forall|j: int| 0 <= j < columns.len() ==> 0 <= #[trigger] columns[j] < params.total(),
            cols@.len() == i,
            distinct_columns(cols@),
            forall|j: int| 0 <= j < i ==> #[trigger] cols@[j] == (columns[j] as u32, 1u8),
        decreases indices@.len() - i,
    {
        let ghost before = cols@;
        assert(indices@[i as int] == columns[i as int]);
        let entry: (u32, u8) = (indices[i] as u32, 1u8);
        proof {
            assert forall|j: int| 0 <= j < before.len() implies (#[trigger] before[j]).0
                != entry.0 by {
                assert(columns[j] != columns[i as int]);
            }
            lemma_coef_append(before, entry);
        }
        cols.push(entry);
        i = i + 1;
    }
    proof {
        assert forall|c: int| 0 <= c < coefs.len() implies #[trigger] coef(cols@, c)
            == coefs[c] by {
            if columns.contains(c) {
                let j = columns.index_of(c);
                assert(cols@[j].0 == c);
                lemma_coef_present(cols@, j);
            } else {
                assert forall|j: int| 0 <= j < cols@.len() implies (#[trigger] cols@[j]).0
                    != c by {
                    assert(columns.contains(columns[j]));
                }
                lemma_coef_absent(cols@, c);
            }
        }
    }
    cols
}

/// Column `c` of the first LDPC part meets row `i`: one of the three rows that it reaches in steps
/// of `1 + c / s` from row `c % s` on.
pub open spec fn ldpc_meets(i: int, c: int, s: int) -> bool {
    ||| i == stepped(c % s, 1 + c / s, s, 0)
    ||| i == stepped(c % s, 1 + c / s, s, 1)
    ||| i == stepped(c % s, 1 + c / s, s, 2)
}

/// The coefficients of LDPC row `i`: the columns that meet it, the LDPC symbol itself, and two PI
/// symbols.
pub open spec fn ldpc_coefs(params: BlockParameters, i: int) -> Seq<u8> {
    Seq::new(
        params.total() as nat,
        |c: int|
            {
                let w = params.lt_symbols as int;
                let hit = if c < params.plain_lt() {
                    ldpc_meets(i, c, params.ldpc_symbols as int)
                } else if c < w {
                    c == i + params.plain_lt()
                } else {
                    c - w == i % params.pi() || c - w == (i + 1) % params.pi()
                };
                if hit {
                    1u8
                } else {
                    0u8
                }
            },
    )
}

/// The entries of row `i` once the columns below `n` have been entered.
spec fn ldpc_entered(cols: Seq<(u32, u8)>, i: int, n: int, s: int) -> bool {
    &&& distinct_columns(cols)
    &&& forall|k: int| 0 <= k < cols.len() ==> (#[trigger] cols[k]).0 < n && cols[k].1 == 1
    &&& forall|c: int|
        #[trigger] coef(cols, c) == if 0 <= c < n && ldpc_meets(i, c, s) {
            1u8
        } else {
            0u8
        }
}

proof fn lemma_ldpc_enter(before: Seq<(u32, u8)>, after: Seq<(u32, u8)>, i: int, n: u32, s: int)
    requires
        ldpc_entered(before, i, n as int, s),
        after == if ldpc_meets(i, n as int, s) {
            before.push((n, 1u8))
        } else {
            before
        },
    ensures
        ldpc_entered(after, i, n + 1, s),
{
    if ldpc_meets(i, n as int, s) {
        lemma_coef_append(before, (n, 1u8));
    }
}

/// The three rows that a column meets are distinct.
pub proof fn lemma_ldpc_rows_distinct(params: BlockParameters, c: int)
    requires
        params.valid(),
        0 <= c < params.plain_lt(),
    ensures
        ({
            let s = params.ldpc_symbols as int;
            let r0 = stepped(c % s, 1 + c / s, s, 0);
            let r1 = stepped(c % s, 1 + c / s, s, 1);
            let r2 = stepped(c % s, 1 + c / s, s, 2);
            &&& 1 + c / s < s
            &&& r0 == c % s
            &&& r1 == (c % s + (1 + c / s)) % s
            &&& r2 == (c % s + 2 * (1 + c / s)) % s
            &&& 0 <= r0 < s
            &&& 0 <= r1 < s
            &&& 0 <= r2 < s
            &&& r0 != r1
            &&& r0 != r2
            &&& r1 != r2
        }),
{
    let s = params.ldpc_symbols as int;
    let a = 1 + c / s;
    assert(1 + c / s < s) by (nonlinear_arith)
        requires
            0 <= c < s * (s - 1),
            s >= 3,
    ;
    assert(c / s >= 0) by (nonlinear_arith)
        requires
            0 <= c,
            s >= 3,
    ;
    vstd::arithmetic::div_mod::lemma_mod_bound(c, s);
    vstd::arithmetic::div_mod::lemma_small_mod((c % s) as nat, s as nat);
    vstd::arithmetic::div_mod::lemma_mod_bound(c % s + a, s);
    vstd::arithmetic::div_mod::lemma_mod_bound(c % s + 2 * a, s);
    lemma_steps_distinct(c % s, a, s, 0, 1);
    lemma_steps_distinct(c % s, a, s, 0, 2);
    lemma_steps_distinct(c % s, a, s, 1, 2);
}

/// Lists the coefficients of the LDPC rows.
pub fn ldpc_rows(params: &BlockParameters) -> (r: Vec<Vec<(u32, u8)>>)
    requires
        params.valid(),
    ensures
        r@.len() == params.ldpc_symbols,
        forall|i: int|
            0 <= i < r@.len() ==> lists((#[trigger] r@[i])@, ldpc_coefs(*params, i)),
        forall|i: int, k: int|
            0 <= i < r@.len() && 0 <= k < r@[i]@.len() ==> (#[trigger] r@[i]@[k]).1 == 1,
{
    let s: usize = params.ldpc_symbols as usize;
    let w: usize = params.lt_symbols as usize;
    let p: usize = params.num_pi_symbols() as usize;
    let b: usize = w - s;
    let mut rows: Vec<Vec<(u32, u8)>> = Vec::with_capacity(s);
    let mut i: usize = 0;
    while i < s
        invariant
            i <= s,
            rows@.len() == i,
            forall|k: int| 0 <= k < i ==> ldpc_entered((#[trigger] rows@[k])@, k, 0, s as int),
        decreases s - i,
    {
        let cols: Vec<(u32, u8)> = Vec::new();
        assert forall|c: int| #[trigger] coef(cols@, c) == 0 by {
            lemma_coef_absent(cols@, c);
        }
        rows.push(cols);
        i = i + 1;
    }
    let mut c: usize = 0;
    while c < b
        invariant
            c <= b,
            params.valid(),
            s == params.ldpc_symbols,
            w == params.lt_symbols,
            b == w - s,
            rows@.len() == s,
            forall|k: int|
                0 <= k < s ==> ldpc_entered((#[trigger] rows@[k])@, k, c as int, s as int),
        decreases b - c,
    {
        let a: usize = 1 + c / s;
        let bm: usize = c % s;
        let ghost before = rows@;
        proof {
            lemma_ldpc_rows_distinct(*params, c as int);
        }
        rows[bm].push((c as u32, 1u8));
        rows[(bm + a) % s].push((c as u32, 1u8));
        rows[(bm + 2 * a) % s].push((c as u32, 1u8));
        proof {
            assert forall|k: int| 0 <= k < s implies ldpc_entered(
                (#[trigger] rows@[k])@,
                k,
                c + 1,
                s as int,
            ) by {
                assert(ldpc_entered(before[k]@, k, c as int, s as int));
                lemma_ldpc_enter(before[k]@, rows@[k]@, k, c as u32, s as int);
            }
        }
        c = c + 1;
    }
    let mut i: usize = 0;
    while i < s
        invariant
            i <= s,
            params.valid(),
            s == params.ldpc_symbols,
            w == params.lt_symbols,
            b == w - s,
            p == params.pi(),
            rows@.len() == s,
            forall|k: int|
                i <= k < s ==> ldpc_entered((#[trigger] rows@[k])@, k, b as int, s as int),
            forall|k: int| 0 <= k < i ==> lists((#[trigger] rows@[k])@, ldpc_coefs(*params, k)),
            forall|k: int, l: int|
                0 <= k < i && 0 <= l < rows@[k]@.len() ==> (#[trigger] rows@[k]@[l]).1 == 1,
        decreases s - i,
    {
        let ghost cols = rows@[i as int]@;
        let x: u32 = (i + b) as u32;
        let y: u32 = (i % p + w) as u32;
        let z: u32 = ((i + 1) % p + w) as u32;
        proof {
            assert(ldpc_entered(rows@[i as int]@, i as int, b as int, s as int));
            assert(i as int % p as int != (i + 1) as int % p as int) by (nonlinear_arith)
                requires
                    p >= 3,
            ;
            lemma_coef_append(cols, (x, 1u8));
            lemma_coef_append(cols.push((x, 1u8)), (y, 1u8));
            lemma_coef_append(cols.push((x, 1u8)).push((y, 1u8)), (z, 1u8));
        }
        rows[i].push((x, 1u8));
        rows[i].push((y, 1u8));
        rows[i].push((z, 1u8));
        i = i + 1;
    }
    rows
}

/// The two rows that column `j` of the HDPC part adds to.
pub open spec fn hdpc_pair(code: CodeView, h: int, j: int) -> (int, int) {
    let first = random_value(code, j + 1, 6, h);
    (first, (first + random_value(code, j + 1, 7, h - 1) + 1) % h)
}

/// The coefficient of HDPC row `i` in column `j`. The last columns are an identity matrix; before
/// them stands the column of the powers of the generator; and each column further left is the one
/// to its right times the generator, plus one in two rows.
pub open spec fn hdpc_coef(code: CodeView, params: BlockParameters, i: int, j: int) -> u8
    decreases params.total() - j,
{
    let width = params.kprime + params.ldpc_symbols;
    if j >= width {
        if j == width + i {
            1u8
        } else {
            0u8
        }
    } else if j == width - 1 {
        gf_alpha(i as nat)
    } else {
        let (first, second) = hdpc_pair(code, params.hdpc_symbols as int, j);
        gf_mul(2, hdpc_coef(code, params, i, j + 1)) ^ if i == first || i == second {
            1u8
        } else {
            0u8
        }
    }
}

/// The coefficients of HDPC row `i`.
pub open spec fn hdpc_coefs(code: CodeView, params: BlockParameters, i: int) -> Seq<u8> {
    Seq::new(params.total() as nat, |j: int| hdpc_coef(code, params, i, j))
}

/// Computes the HDPC rows.
pub fn generate_hdpc_rows(tables: &CodeTables, params: &BlockParameters) -> (r: Vec<Vec<u8>>)
    requires
        params.valid(),
    ensures
        r@.len() == params.hdpc_symbols,
        forall|i: int|
            0 <= i < r@.len() ==> (#[trigger] r@[i])@ == hdpc_coefs(tables@, *params, i),
{
    let h: usize = params.hdpc_symbols as usize;
    let width: usize = (params.kprime + params.ldpc_symbols) as usize;
    let total: usize = params.num_intermediate_symbols() as usize;
    let mut pairs: Vec<(usize, usize)> = Vec::with_capacity(width);
    let mut j: usize = 0;
    while j < width - 1
        invariant
            j <= width - 1,
            1 <= width < 0x1_0000,
            2 <= h < 0x1_0000,
            pairs@.len() == j,
            forall|k: int|
                0 <= k < j ==> ((#[trigger] pairs@[k]).0 as int, pairs@[k].1 as int) == hdpc_pair(
                    tables@,
                    h as int,
                    k,
                ),
        decreases width - j,
    {
        let first: usize = rand(tables, j as u32 + 1, 6, h as u32) as usize;
        let second: usize = (first + rand(tables, j as u32 + 1, 7, h as u32 - 1) as usize + 1) % h;
        pairs.push((first, second));
        j = j + 1;
    }
    let mut rows: Vec<Vec<u8>> = Vec::with_capacity(h);
    let mut i: usize = 0;
    while i < h
        invariant
            i <= h,
            params.valid(),
            h == params.hdpc_symbols,
            width == params.kprime + params.ldpc_symbols,
            total == params.total(),
            pairs@.len() == width - 1,
            forall|k: int|
                0 <= k < width - 1 ==> ((#[trigger] pairs@[k]).0 as int, pairs@[k].1 as int)
                    == hdpc_pair(tables@, h as int, k),
            rows@.len() == i,
            forall|k: int| 0 <= k < i ==> (#[trigger] rows@[k])@ == hdpc_coefs(tables@, *params, k),
        decreases h - i,
    {
        let mut row: Vec<u8> = vec![0u8; total];
        row.set(width + i, 1u8);
        row.set(width - 1, Octet::alpha(i).byte());
        let mut j: usize = width - 1;
        while j > 0
            invariant
                j <= width - 1,
                i < h,
                params.valid(),
                h == params.hdpc_symbols,
                width == params.kprime + params.ldpc_symbols,
                total == params.total(),
                pairs@.len() == width - 1,
                forall|k: int|
                    0 <= k < width - 1 ==> ((#[trigger] pairs@[k]).0 as int, pairs@[k].1 as int)
                        == hdpc_pair(tables@, h as int, k),
                row@.len() == total,
                forall|k: int|
                    j <= k < total ==> #[trigger] row@[k] == hdpc_coef(
                        tables@,
                        *params,
                        i as int,
                        k,
                    ),
            decreases j,
        {
            j = j - 1;
            let shifted: u8 = (Octet::alpha(1) * Octet::new(row[j + 1])).byte();
            let (first, second) = pairs[j];
            let value: u8 = if first == i || second == i {
                shifted ^ 1
            } else {
                shifted
            };
            proof {
                assert(row@[j + 1] == hdpc_coef(tables@, *params, i as int, j + 1));
                assert(gf_alpha(1) == 2) by {
                    assert(gf_alpha(0) == 1);
                    lemma_mul_units(2);
                }
                lemma_xor(shifted, 0, 0);
                assert((pairs@[j as int].0 as int, pairs@[j as int].1 as int) == hdpc_pair(
                    tables@,
                    h as int,
                    j as int,
                ));
            }
            row.set(j, value);
        }
        assert(row@ =~= hdpc_coefs(tables@, *params, i as int));
        rows.push(row);
        i = i + 1;
    }
    rows
}

/// Lists the coefficients that are not zero, by increasing column.
pub fn nonzero_columns(coefs: &Vec<u8>) -> (r: Vec<(u32, u8)>)
    requires
        coefs@.len() <= u32::MAX,
    ensures
        lists(r@, coefs@),
        increasing_columns(r@),
        forall|i: int| 0 <= i < r@.len() ==> (#[trigger] r@[i]).1 != 0,
{
    let mut cols: Vec<(u32, u8)> = Vec::new();
    let mut j: usize = 0;
    proof {
        assert forall|c: int| #[trigger] coef(cols@, c) == 0 by {
            lemma_coef_absent(cols@, c);
        }
    }
    while j < coefs.len()
        invariant
            j <= coefs@.len(),
            coefs@.len() <= u32::MAX,
            increasing_columns(cols@),
            forall|i: int| 0 <= i < cols@.len() ==> (#[trigger] cols@[i]).0 < j,
            forall|i: int| 0 <= i < cols@.len() ==> (#[trigger] cols@[i]).1 != 0,
            forall|c: int| 0 <= c < j ==> #[trigger] coef(cols@, c) == coefs@[c],
            forall|c: int| j <= c ==> #[trigger] coef(cols@, c) == 0,
        decreases coefs@.len() - j,
    {
        let v: u8 = coefs[j];
        if v != 0 {
            proof {
                lemma_coef_append(cols@, (j as u32, v));
            }
            cols.push((j as u32, v));
        }
        j = j + 1;
    }
    cols
}

} // verus!
