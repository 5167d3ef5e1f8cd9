//! What the code is, in plain arithmetic.
//!
//! The functions that compute the code are stated over spec functions of their own. The laws here
//! say what these are in terms of the numbers that go in: the parameters of a block, the words of
//! the generator and the IDs of symbols.

use crate::base::{
    degree, draws_degree, tuple_in_range, tuple_of, tuple_seed, IntermediateTuple,
    DEGREE_THRESHOLDS, ENCODING_SYMBOL_IDS,
};
use crate::constraint_matrix::{
    enc_columns, hdpc_coef, hdpc_coefs, ldpc_coefs, lemma_ldpc_rows_distinct, lemma_pi_step,
    lt_coefs, lt_columns, pi_step,
};
use crate::gf256::{
    gf_alpha, gf_double, gf_mul, lemma_double, lemma_mul_associative, lemma_mul_units, lemma_xor,
};
use crate::primes::{is_prime, lemma_step, stepped};
use crate::reduced::{REDUCED_LOST_THRESHOLD, REDUCED_MIN_SYMBOLS};
use crate::rng::random_value;
use crate::systematic_constants::{
    lemma_fits, lemma_p1, lemma_parameters, BlockParameters, CodeView, MAX_SOURCE_SYMBOLS_PER_BLOCK,
};
use vstd::arithmetic::div_mod::{lemma_add_mod_noop, lemma_mod_bound, lemma_mod_twice};
use vstd::prelude::*;

verus! {

/// The fixed numbers of the code and of the decoder.
pub proof fn law_constants()
    ensures
        MAX_SOURCE_SYMBOLS_PER_BLOCK == 56403,
        ENCODING_SYMBOL_IDS == 16777216,
        REDUCED_LOST_THRESHOLD == 16,
        REDUCED_MIN_SYMBOLS == 24,
{
}

/// The numbers of symbols of each kind, as sums and differences of the parameters.
pub proof fn law_symbol_counts(params: BlockParameters)
    ensures
        params.total() == params.kprime + params.ldpc_symbols + params.hdpc_symbols,
        params.pi() + params.lt_symbols == params.total(),
        params.plain_lt() + params.ldpc_symbols == params.lt_symbols,
{
}

/// Which parameters are accepted.
pub proof fn law_valid_parameters(params: BlockParameters)
    ensures
        params.valid() <==> {
            let (k, s, h, w) = (
                params.kprime as int,
                params.ldpc_symbols as int,
                params.hdpc_symbols as int,
                params.lt_symbols as int,
            );
            &&& 1 <= k <= 56403
            &&& params.systematic_index <= 65535
            &&& s >= 3
            &&& forall|d: int| 2 <= d < s ==> #[trigger] (s % d) != 0
            &&& h >= 2
            &&& s < w
            &&& forall|d: int| 2 <= d < w ==> #[trigger] (w % d) != 0
            &&& w + 3 <= k + s + h <= 65535
            &&& w - s <= s * (s - 1)
        },
{
    let s = params.ldpc_symbols as int;
    assert(params.ldpc_symbols * (params.ldpc_symbols - 1) == s * (s - 1));
}

/// Which tables are accepted.
pub proof fn law_valid_tables(code: CodeView)
    ensures
        code.valid() <==> {
            &&& code.blocks.len() >= 1
            &&& forall|i: int| 0 <= i < code.blocks.len() ==> (#[trigger] code.blocks[i]).valid()
            &&& forall|i: int, j: int|
                0 <= i < j < code.blocks.len() ==> (#[trigger] code.blocks[i]).kprime < (
                #[trigger] code.blocks[j]).kprime
            &&& code.v0.len() == 256
            &&& code.v1.len() == 256
            &&& code.v2.len() == 256
            &&& code.v3.len() == 256
        },
{
}

/// A block gets the parameters of the smallest block size that can hold it, and every size up to
/// the largest is supported.
pub proof fn law_smallest_block(code: CodeView, k: int)
    requires
        code.valid(),
        k <= code.blocks.last().kprime,
    ensures
        code.capacity() == code.blocks.last().kprime,
        code.blocks.contains(code.parameters(k)),
        k <= code.parameters(k).kprime,
        forall|i: int|
            0 <= i < code.blocks.len() && k <= (#[trigger] code.blocks[i]).kprime
                ==> code.parameters(k).kprime <= code.blocks[i].kprime,
{
    let at = lemma_fits(code, k, 0);
    lemma_parameters(code, at, k);
    assert(code.blocks[at] == code.parameters(k));
    assert forall|i: int|
        0 <= i < code.blocks.len() && k <= (#[trigger] code.blocks[i]).kprime implies
        code.parameters(k).kprime <= code.blocks[i].kprime by {
        if i < at {
            assert(code.blocks[i].kprime < k);
        } else if at < i {
            assert(code.blocks[at].kprime < code.blocks[i].kprime);
        }
    }
}

/// `P1` is the least number from `P` on that has no divisor but one and itself: any `q` before it
/// has one.
pub proof fn law_p1(params: BlockParameters, q: int)
    requires
        params.valid(),
    ensures
        params.pi() <= params.p1(),
        forall|d: int| 2 <= d < params.p1() ==> #[trigger] (params.p1() % d) != 0,
        params.pi() <= q < params.p1() ==> exists|d: int| 2 <= d < q && #[trigger] (q % d) == 0,
{
    lemma_p1(params);
    if params.pi() <= q < params.p1() {
        assert(!is_prime(q));
    }
}

/// A prime has no divisor but one and itself.
pub proof fn law_prime(n: int)
    ensures
        is_prime(n) <==> n >= 2 && forall|d: int| 2 <= d < n ==> #[trigger] (n % d) != 0,
{
}

/// A value of the generator is made of one word of each table, picked by the four bytes of the
/// number `y`, each shifted by the stream `i`.
pub proof fn law_random_value(code: CodeView, y: int, i: int, m: int)
    requires
        0 <= y < 0x1_0000_0000,
        0 <= i,
        m > 0,
    ensures
        random_value(code, y, i, m) == (code.v0[(y + i) % 256] ^ code.v1[(y / 256 + i) % 256]
            ^ code.v2[(y / 65536 + i) % 256] ^ code.v3[(y / 16777216 + i) % 256]) as int % m,
        0 <= random_value(code, y, i, m) < m,
{
    let x = (code.v0[(y + i) % 256] ^ code.v1[(y / 256 + i) % 256] ^ code.v2[(y / 65536 + i)
        % 256] ^ code.v3[(y / 16777216 + i) % 256]) as int;
    lemma_mod_bound(x, m);
}

proof fn lemma_threshold_step(e: int)
    requires
        1 <= e < 30,
    ensures
        DEGREE_THRESHOLDS@[e] < DEGREE_THRESHOLDS@[e + 1],
{
    if e == 1 {
    } else if e == 2 {
    } else if e == 3 {
    } else if e == 4 {
    } else if e == 5 {
    } else if e == 6 {
    } else if e == 7 {
    } else if e == 8 {
    } else if e == 9 {
    } else if e == 10 {
    } else if e == 11 {
    } else if e == 12 {
    } else if e == 13 {
    } else if e == 14 {
    } else if e == 15 {
    } else if e == 16 {
    } else if e == 17 {
    } else if e == 18 {
    } else if e == 19 {
    } else if e == 20 {
    } else if e == 21 {
    } else if e == 22 {
    } else if e == 23 {
    } else if e == 24 {
    } else if e == 25 {
    } else if e == 26 {
    } else if e == 27 {
    } else if e == 28 {
    } else if e == 29 {
    }
}

proof fn lemma_thresholds_increase(e: int, f: int)
    requires
        1 <= e <= f <= 30,
    ensures
        DEGREE_THRESHOLDS@[e] <= DEGREE_THRESHOLDS@[f],
    decreases f - e,
{
    if e < f {
        lemma_threshold_step(e);
        lemma_thresholds_increase(e + 1, f);
    }
}

proof fn lemma_drawn(v: int, d: int, lt_symbols: int)
    requires
        1 <= d <= 30,
        v < DEGREE_THRESHOLDS@[d],
        d == 1 || DEGREE_THRESHOLDS@[d - 1] <= v,
    ensures
        degree(v, lt_symbols) == if d <= lt_symbols - 2 {
            d
        } else {
            lt_symbols - 2
        },
{
    assert forall|e: int| 1 <= e < d implies #[trigger] DEGREE_THRESHOLDS@[e] <= v by {
        lemma_thresholds_increase(e, d - 1);
    }
    assert(draws_degree(v, d));
    let e = choose|e: int| draws_degree(v, e);
    assert(draws_degree(v, e));
    assert(e == d);
}

/// The distribution of the degrees: which of the 2^20 values give which degree. A degree above
/// `W - 2` is cut down to that.
pub proof fn law_degree(v: int, lt_symbols: int)
    ensures
        0 <= v < 5243 ==> degree(v, lt_symbols) == if 1 <= lt_symbols - 2 {
            1int
        } else {
            lt_symbols - 2
        },
        5243 <= v < 529531 ==> degree(v, lt_symbols) == if 2 <= lt_symbols - 2 {
            2int
        } else {
            lt_symbols - 2
        },
        529531 <= v < 704294 ==> degree(v, lt_symbols) == if 3 <= lt_symbols - 2 {
            3int
        } else {
            lt_symbols - 2
        },
        704294 <= v < 791675 ==> degree(v, lt_symbols) == if 4 <= lt_symbols - 2 {
            4int
        } else {
            lt_symbols - 2
        },
        791675 <= v < 844104 ==> degree(v, lt_symbols) == if 5 <= lt_symbols - 2 {
            5int
        } else {
            lt_symbols - 2
        },
        844104 <= v < 879057 ==> degree(v, lt_symbols) == if 6 <= lt_symbols - 2 {
            6int
        } else {
            lt_symbols - 2
        },
        879057 <= v < 904023 ==> degree(v, lt_symbols) == if 7 <= lt_symbols - 2 {
            7int
        } else {
            lt_symbols - 2
        },
        904023 <= v < 922747 ==> degree(v, lt_symbols) == if 8 <= lt_symbols - 2 {
            8int
        } else {
            lt_symbols - 2
        },
        922747 <= v < 937311 ==> degree(v, lt_symbols) == if 9 <= lt_symbols - 2 {
            9int
        } else {
            lt_symbols - 2
        },
        937311 <= v < 948962 ==> degree(v, lt_symbols) == if 10 <= lt_symbols - 2 {
            10int
        } else {
            lt_symbols - 2
        },
        948962 <= v < 958494 ==> degree(v, lt_symbols) == if 11 <= lt_symbols - 2 {
            11int
        } else {
            lt_symbols - 2
        },
        958494 <= v < 966438 ==> degree(v, lt_symbols) == if 12 <= lt_symbols - 2 {
            12int
        } else {
            lt_symbols - 2
        },
        966438 <= v < 973160 ==> degree(v, lt_symbols) == if 13 <= lt_symbols - 2 {
            13int
        } else {
            lt_symbols - 2
        },
        973160 <= v < 978921 ==> degree(v, lt_symbols) == if 14 <= lt_symbols - 2 {
            14int
        } else {
            lt_symbols - 2
        },
        978921 <= v < 983914 ==> degree(v, lt_symbols) == if 15 <= lt_symbols - 2 {
            15int
        } else {
            lt_symbols - 2
        },
        983914 <= v < 988283 ==> degree(v, lt_symbols) == if 16 <= lt_symbols - 2 {
            16int
        } else {
            lt_symbols - 2
        },
        988283 <= v < 992138 ==> degree(v, lt_symbols) == if 17 <= lt_symbols - 2 {
            17int
        } else {
            lt_symbols - 2
        },
        992138 <= v < 995565 ==> degree(v, lt_symbols) == if 18 <= lt_symbols - 2 {
            18int
        } else {
            lt_symbols - 2
        },
        995565 <= v < 998631 ==> degree(v, lt_symbols) == if 19 <= lt_symbols - 2 {
            19int
        } else {
            lt_symbols - 2
        },
        998631 <= v < 1001391 ==> degree(v, lt_symbols) == if 20 <= lt_symbols - 2 {
            20int
        } else {
            lt_symbols - 2
        },
        1001391 <= v < 1003887 ==> degree(v, lt_symbols) == if 21 <= lt_symbols - 2 {
            21int
        } else {
            lt_symbols - 2
        },
        1003887 <= v < 1006157 ==> degree(v, lt_symbols) == if 22 <= lt_symbols - 2 {
            22int
        } else {
            lt_symbols - 2
        },
        1006157 <= v < 1008229 ==> degree(v, lt_symbols) == if 23 <= lt_symbols - 2 {
            23int
        } else {
            lt_symbols - 2
        },
        1008229 <= v < 1010129 ==> degree(v, lt_symbols) == if 24 <= lt_symbols - 2 {
            24int
        } else {
            lt_symbols - 2
        },
        1010129 <= v < 1011876 ==> degree(v, lt_symbols) == if 25 <= lt_symbols - 2 {
            25int
        } else {
            lt_symbols - 2
        },
        1011876 <= v < 1013490 ==> degree(v, lt_symbols) == if 26 <= lt_symbols - 2 {
            26int
        } else {
            lt_symbols - 2
        },
        1013490 <= v < 1014983 ==> degree(v, lt_symbols) == if 27 <= lt_symbols - 2 {
            27int
        } else {
            lt_symbols - 2
        },
        1014983 <= v < 1016370 ==> degree(v, lt_symbols) == if 28 <= lt_symbols - 2 {
            28int
        } else {
            lt_symbols - 2
        },
        1016370 <= v < 1017662 ==> degree(v, lt_symbols) == if 29 <= lt_symbols - 2 {
            29int
        } else {
            lt_symbols - 2
        },
        1017662 <= v < 1048576 ==> degree(v, lt_symbols) == if 30 <= lt_symbols - 2 {
            30int
        } else {
            lt_symbols - 2
        },
{
    if v < 5243 {
        lemma_drawn(v, 1, lt_symbols);
    } else if v < 529531 {
        lemma_drawn(v, 2, lt_symbols);
    } else if v < 704294 {
        lemma_drawn(v, 3, lt_symbols);
    } else if v < 791675 {
        lemma_drawn(v, 4, lt_symbols);
    } else if v < 844104 {
        lemma_drawn(v, 5, lt_symbols);
    } else if v < 879057 {
        lemma_drawn(v, 6, lt_symbols);
    } else if v < 904023 {
        lemma_drawn(v, 7, lt_symbols);
    } else if v < 922747 {
        lemma_drawn(v, 8, lt_symbols);
    } else if v < 937311 {
        lemma_drawn(v, 9, lt_symbols);
    } else if v < 948962 {
        lemma_drawn(v, 10, lt_symbols);
    } else if v < 958494 {
        lemma_drawn(v, 11, lt_symbols);
    } else if v < 966438 {
        lemma_drawn(v, 12, lt_symbols);
    } else if v < 973160 {
        lemma_drawn(v, 13, lt_symbols);
    } else if v < 978921 {
        lemma_drawn(v, 14, lt_symbols);
    } else if v < 983914 {
        lemma_drawn(v, 15, lt_symbols);
    } else if v < 988283 {
        lemma_drawn(v, 16, lt_symbols);
    } else if v < 992138 {
        lemma_drawn(v, 17, lt_symbols);
    } else if v < 995565 {
        lemma_drawn(v, 18, lt_symbols);
    } else if v < 998631 {
        lemma_drawn(v, 19, lt_symbols);
    } else if v < 1001391 {
        lemma_drawn(v, 20, lt_symbols);
    } else if v < 1003887 {
        lemma_drawn(v, 21, lt_symbols);
    } else if v < 1006157 {
        lemma_drawn(v, 22, lt_symbols);
    } else if v < 1008229 {
        lemma_drawn(v, 23, lt_symbols);
    } else if v < 1010129 {
        lemma_drawn(v, 24, lt_symbols);
    } else if v < 1011876 {
        lemma_drawn(v, 25, lt_symbols);
    } else if v < 1013490 {
        lemma_drawn(v, 26, lt_symbols);
    } else if v < 1014983 {
        lemma_drawn(v, 27, lt_symbols);
    } else if v < 1016370 {
        lemma_drawn(v, 28, lt_symbols);
    } else if v < 1017662 {
        lemma_drawn(v, 29, lt_symbols);
    } else if v < 1048576 {
        lemma_drawn(v, 30, lt_symbols);
    }
}

/// The degree of every value is positive, at most 30 and at most `W - 2`.
proof fn lemma_degree_range(v: int, lt_symbols: int)
    requires
        0 <= v < 1048576,
        lt_symbols >= 3,
    ensures
        1 <= degree(v, lt_symbols) <= 30,
        degree(v, lt_symbols) <= lt_symbols - 2,
{
    law_degree(v, lt_symbols);
}

/// The orbit of a step modulo `m`.
pub proof fn law_stepped(b: int, a: int, m: int, k: int)
    requires
        m > 0,
    ensures
        stepped(b, a, m, 0) == b % m,
        stepped(b, a, m, k) == (b + k * a) % m,
        stepped(b, a, m, k + 1) == (stepped(b, a, m, k) + a) % m,
        0 <= stepped(b, a, m, k) < m,
{
    lemma_step(b, a, m, k);
    lemma_mod_bound(b + k * a, m);
    assert(0 * a == 0) by (nonlinear_arith);
}

/// The tuple of an internal symbol ID. The LT part is drawn from the number
/// `10267 (J + 1) + X A` modulo 2^32, where `A` is the odd one of `53591 + 997 J` and its
/// successor; the PI part is drawn from the ID `X` itself.
#[verifier::rlimit(60)]
#[verifier::spinoff_prover]
pub proof fn law_tuple(code: CodeView, x: int, w: int, j: int, p1: int)
    requires
        0 <= x < 0x1_0000_0000,
        4 <= w <= 65536,
        0 <= j <= 65535,
        3 <= p1 <= 65537,
    ensures
        ({
            let word = |y: int, i: int|
                (code.v0[(y + i) % 256] ^ code.v1[(y / 256 + i) % 256] ^ code.v2[(y / 65536 + i)
                    % 256] ^ code.v3[(y / 16777216 + i) % 256]) as int;
            let odd = 53591 + 997 * j + j % 2;
            let y = (10267 * (j + 1) + x * odd) % 4294967296;
            let tuple = tuple_of(code, x, w, j, p1);
            &&& odd % 2 == 1
            &&& tuple.d == degree(word(y, 0) % 1048576, w)
            &&& tuple.a == 1 + word(y, 1) % (w - 1)
            &&& tuple.b == word(y, 2) % w
            &&& tuple.d1 == if tuple.d < 4 {
                2 + word(x, 3) % 2
            } else {
                2
            }
            &&& tuple.a1 == 1 + word(x, 4) % (p1 - 1)
            &&& tuple.b1 == word(x, 5) % p1
        }),
        tuple_in_range(tuple_of(code, x, w, j, p1), w, p1),
{
    let odd = 53591 + 997 * j + j % 2;
    let y = (10267 * (j + 1) + x * odd) % 4294967296;
    lemma_seed(x, j);
    lemma_mod_bound(10267 * (j + 1) + x * odd, 4294967296);
    law_random_value(code, y, 0, 1048576);
    law_random_value(code, y, 1, w - 1);
    law_random_value(code, y, 2, w);
    law_random_value(code, x, 3, 2);
    law_random_value(code, x, 4, p1 - 1);
    law_random_value(code, x, 5, p1);
    lemma_degree_range(random_value(code, y, 0, 1048576), w);
}

proof fn lemma_seed(x: int, j: int)
    ensures
        ({
            let odd = 53591 + 997 * j + j % 2;
            &&& odd % 2 == 1
            &&& tuple_seed(x, j) == (10267 * (j + 1) + x * odd) % 4294967296
        }),
{
}

/// The columns of the encoding symbol with internal ID `x`, from the parameters of the block.
///
/// The numbers are drawn from the words of the generator: the LT part, `d`, `a` and `b`, from the
/// number `y`, and the PI part, `d1`, `a1` and `b1`, from the ID itself. The LT columns start at
/// `b` and go on in steps of `a` modulo `W`. The PI columns are `W` plus the values below `P` that
/// the steps of `a1` modulo `P1` hit from `b1` on, in order; what lies between two of them is not
/// below `P`.
#[verifier::rlimit(60)]
#[verifier::spinoff_prover]
pub proof fn law_lt_columns(
    code: CodeView,
    params: BlockParameters,
    x: int,
    y: int,
    d: int,
    a: int,
    b: int,
    d1: int,
    a1: int,
    b1: int,
)
    requires
        params.valid(),
        0 <= x < 0x1_0000_0000,
        y == (10267 * (params.systematic_index + 1) + x * (53591 + 997 * params.systematic_index
            + params.systematic_index % 2)) % 4294967296,
        ({
            let word = |y: int, i: int|
                (code.v0[(y + i) % 256] ^ code.v1[(y / 256 + i) % 256] ^ code.v2[(y / 65536 + i)
                    % 256] ^ code.v3[(y / 16777216 + i) % 256]) as int;
            let (w, p1) = (params.lt_symbols as int, params.p1());
            &&& d == degree(word(y, 0) % 1048576, w)
            &&& a == 1 + word(y, 1) % (w - 1)
            &&& b == word(y, 2) % w
            &&& d1 == if d < 4 {
                2 + word(x, 3) % 2
            } else {
                2
            }
            &&& a1 == 1 + word(x, 4) % (p1 - 1)
            &&& b1 == word(x, 5) % p1
        }),
    ensures
        ({
            let (w, p, p1) = (
                params.lt_symbols as int,
                params.kprime + params.ldpc_symbols + params.hdpc_symbols - params.lt_symbols,
                params.p1(),
            );
            let columns = lt_columns(code, params, x);
            &&& (53591 + 997 * params.systematic_index + params.systematic_index % 2) % 2 == 1
            &&& 1 <= d <= 30
            &&& columns.len() == d + d1
            &&& forall|i: int| 0 <= i < d ==> #[trigger] columns[i] == (b + i * a) % w
            &&& forall|i: int| d <= i < d + d1 ==> w <= #[trigger] columns[i] < w + p
            &&& exists|k: int|
                {
                    &&& 0 <= k
                    &&& #[trigger] stepped(b1, a1, p1, k) == columns[d] - w
                    &&& forall|m: int| 0 <= m < k ==> #[trigger] stepped(b1, a1, p1, m) >= p
                }
            &&& exists|k: int|
                {
                    &&& 1 <= k
                    &&& #[trigger] stepped(columns[d] - w, a1, p1, k) == columns[d + 1] - w
                    &&& forall|m: int|
                        1 <= m < k ==> #[trigger] stepped(columns[d] - w, a1, p1, m) >= p
                }
            &&& d1 == 3 ==> exists|k: int|
                {
                    &&& 1 <= k
                    &&& #[trigger] stepped(columns[d + 1] - w, a1, p1, k) == columns[d + 2] - w
                    &&& forall|m: int|
                        1 <= m < k ==> #[trigger] stepped(columns[d + 1] - w, a1, p1, m) >= p
                }
        }),
{
    lemma_p1(params);
    let tuple = lemma_lt_tuple(code, params, x);
    let (w, p, p1) = (params.lt_symbols as int, params.pi(), params.p1());
    assert(tuple.d == d && tuple.a == a && tuple.b == b);
    assert(tuple.d1 == d1 && tuple.a1 == a1 && tuple.b1 == b1);
    lemma_lt_part(tuple, w, p, p1);
    lemma_pi_part(tuple, w, p, p1);
}

#[verifier::rlimit(60)]
#[verifier::spinoff_prover]
proof fn lemma_lt_tuple(code: CodeView, params: BlockParameters, x: int) -> (tuple:
    IntermediateTuple)
    requires
        params.valid(),
        0 <= x < 0x1_0000_0000,
    ensures
        lt_columns(code, params, x) == enc_columns(
            tuple,
            params.lt_symbols as int,
            params.pi(),
            params.p1(),
        ),
        tuple_in_range(tuple, params.lt_symbols as int, params.p1()),
        ({
            let word = |y: int, i: int|
                (code.v0[(y + i) % 256] ^ code.v1[(y / 256 + i) % 256] ^ code.v2[(y / 65536 + i)
                    % 256] ^ code.v3[(y / 16777216 + i) % 256]) as int;
            let (j, w, p1) = (
                params.systematic_index as int,
                params.lt_symbols as int,
                params.p1(),
            );
            let odd = 53591 + 997 * j + j % 2;
            let y = (10267 * (j + 1) + x * odd) % 4294967296;
            &&& tuple.d == degree(word(y, 0) % 1048576, w)
            &&& tuple.a == 1 + word(y, 1) % (w - 1)
            &&& tuple.b == word(y, 2) % w
            &&& tuple.d1 == if tuple.d < 4 {
                2 + word(x, 3) % 2
            } else {
                2
            }
            &&& tuple.a1 == 1 + word(x, 4) % (p1 - 1)
            &&& tuple.b1 == word(x, 5) % p1
        }),
{
    lemma_p1(params);
    let (w, p1) = (params.lt_symbols as int, params.p1());
    law_tuple(code, x, w, params.systematic_index as int, p1);
    reveal(lt_columns);
    tuple_of(code, x, w, params.systematic_index as int, p1)
}

proof fn lemma_lt_part(tuple: IntermediateTuple, w: int, p: int, p1: int)
    requires
        tuple_in_range(tuple, w, p1),
    ensures
        ({
            let columns = enc_columns(tuple, w, p, p1);
            &&& columns.len() == tuple.d + tuple.d1
            &&& forall|i: int|
                0 <= i < tuple.d ==> #[trigger] columns[i] == (tuple.b + i * tuple.a) % w
        }),
{
}

proof fn lemma_pi_part(tuple: IntermediateTuple, w: int, p: int, p1: int)
    requires
        is_prime(p1),
        0 < p <= p1,
        tuple_in_range(tuple, w, p1),
    ensures
        ({
            let columns = enc_columns(tuple, w, p, p1);
            let (d, d1) = (tuple.d as int, tuple.d1 as int);
            let (a1, b1) = (tuple.a1 as int, tuple.b1 as int);
            &&& forall|i: int| d <= i < d + d1 ==> w <= #[trigger] columns[i] < w + p
            &&& exists|k: int|
                {
                    &&& 0 <= k
                    &&& #[trigger] stepped(b1, a1, p1, k) == columns[d] - w
                    &&& forall|m: int| 0 <= m < k ==> #[trigger] stepped(b1, a1, p1, m) >= p
                }
            &&& hits_next(columns[d] - w, columns[d + 1] - w, a1, p1, p)
            &&& d1 == 3 ==> hits_next(columns[d + 1] - w, columns[d + 2] - w, a1, p1, p)
        }),
{
    let columns = enc_columns(tuple, w, p, p1);
    let (d, d1) = (tuple.d as int, tuple.d1 as int);
    let (a1, b1) = (tuple.a1 as int, tuple.b1 as int);
    assert forall|i: int| d <= i < d + d1 implies columns[i] == w + stepped(
        b1,
        a1,
        p1,
        pi_step(b1, a1, p1, p, i - d),
    ) && w <= #[trigger] columns[i] < w + p by {
        lemma_pi_step(b1, a1, p1, p, i - d);
        law_stepped(b1, a1, p1, pi_step(b1, a1, p1, p, i - d));
    }
    lemma_pi_step(b1, a1, p1, p, 0);
    assert(stepped(b1, a1, p1, pi_step(b1, a1, p1, p, 0)) == columns[d] - w);
    lemma_pi_next(tuple, w, p, p1, d);
    if d1 == 3 {
        lemma_pi_next(tuple, w, p, p1, d + 1);
    }
}

proof fn lemma_pi_next(tuple: IntermediateTuple, w: int, p: int, p1: int, i: int)
    requires
        is_prime(p1),
        0 < p <= p1,
        tuple_in_range(tuple, w, p1),
        tuple.d <= i < tuple.d + tuple.d1 - 1,
    ensures
        hits_next(
            enc_columns(tuple, w, p, p1)[i] - w,
            enc_columns(tuple, w, p, p1)[i + 1] - w,
            tuple.a1 as int,
            p1,
            p,
        ),
{
    let columns = enc_columns(tuple, w, p, p1);
    let (d, a1, b1) = (tuple.d as int, tuple.a1 as int, tuple.b1 as int);
    let from = pi_step(b1, a1, p1, p, i - d);
    let to = pi_step(b1, a1, p1, p, i - d + 1);
    lemma_pi_step(b1, a1, p1, p, i - d);
    lemma_pi_step(b1, a1, p1, p, i - d + 1);
    let value = columns[i] - w;
    let k = to - from;
    lemma_restart(b1, a1, p1, from, k);
    assert(columns[i + 1] == w + stepped(b1, a1, p1, to));
    assert forall|m: int| 1 <= m < k implies #[trigger] stepped(value, a1, p1, m) >= p by {
        lemma_restart(b1, a1, p1, from, m);
        assert(stepped(b1, a1, p1, from + m) >= p);
    }
    assert(stepped(value, a1, p1, k) == columns[i + 1] - w);
}

/// `next` is the first value below `p` that comes after `value` in steps of `a` modulo `m`.
spec fn hits_next(value: int, next: int, a: int, m: int, p: int) -> bool {
    exists|k: int|
        {
            &&& 1 <= k
            &&& next < p
            &&& #[trigger] stepped(value, a, m, k) == next
            &&& forall|l: int| 1 <= l < k ==> #[trigger] stepped(value, a, m, l) >= p
        }
}

/// Steps can be counted from any point of the orbit.
proof fn lemma_restart(b: int, a: int, m: int, from: int, k: int)
    requires
        m > 0,
    ensures
        stepped(stepped(b, a, m, from), a, m, k) == stepped(b, a, m, from + k),
{
    lemma_add_mod_noop(b + from * a, k * a, m);
    lemma_add_mod_noop(stepped(b, a, m, from), k * a, m);
    lemma_mod_twice(b + from * a, m);
    assert(b + from * a + k * a == b + (from + k) * a) by (nonlinear_arith);
}

/// An encoding symbol is the sum of the intermediate symbols in its columns: the coefficient is one
/// there and zero elsewhere.
pub proof fn law_lt_coefs(code: CodeView, params: BlockParameters, x: int, c: int)
    requires
        params.valid(),
        0 <= c < params.kprime + params.ldpc_symbols + params.hdpc_symbols,
    ensures
        lt_coefs(code, params, x).len() == params.kprime + params.ldpc_symbols
            + params.hdpc_symbols,
        lt_columns(code, params, x).contains(c) ==> lt_coefs(code, params, x)[c] == 1,
        !lt_columns(code, params, x).contains(c) ==> lt_coefs(code, params, x)[c] == 0,
{
}

/// Which LDPC rows a column stands in. A column `c` before `W - S` stands in three different rows,
/// `c % S` and those one and two steps of `1 + c / S` after it, modulo `S`. The LDPC symbol `i`
/// itself stands in row `i` alone, and of the PI symbols row `i` has those at `i` and `i + 1`
/// modulo `P`.
pub proof fn law_ldpc(params: BlockParameters, i: int, c: int)
    requires
        params.valid(),
        0 <= i < params.ldpc_symbols,
        0 <= c < params.kprime + params.ldpc_symbols + params.hdpc_symbols,
    ensures
        ({
            let (s, w) = (params.ldpc_symbols as int, params.lt_symbols as int);
            let p = params.kprime + s + params.hdpc_symbols - w;
            let coefs = ldpc_coefs(params, i);
            &&& coefs.len() == params.kprime + s + params.hdpc_symbols
            &&& coefs[c] == 0 || coefs[c] == 1
            &&& c < w - s ==> (coefs[c] == 1 <==> i == c % s || i == (c % s + (1 + c / s)) % s || i
                == (c % s + 2 * (1 + c / s)) % s)
            &&& c < w - s ==> c % s != (c % s + (1 + c / s)) % s && c % s != (c % s + 2 * (1 + c
                / s)) % s && (c % s + (1 + c / s)) % s != (c % s + 2 * (1 + c / s)) % s
            &&& w - s <= c < w ==> (coefs[c] == 1 <==> c == w - s + i)
            &&& w <= c ==> (coefs[c] == 1 <==> c - w == i % p || c - w == (i + 1) % p)
        }),
{
    let (s, w) = (params.ldpc_symbols as int, params.lt_symbols as int);
    if c < w - s {
        lemma_ldpc_rows_distinct(params, c);
    }
}

/// The HDPC part. Column `j` plus the generator times column `j + 1` has ones in exactly two rows,
/// which are drawn from the number `j + 1`; the column before the last `H` holds the powers of the
/// generator; and the last `H` columns are the identity matrix.
pub proof fn law_hdpc(code: CodeView, params: BlockParameters, i: int, j: int)
    requires
        params.valid(),
        0 <= i < params.hdpc_symbols,
        0 <= j < params.kprime + params.ldpc_symbols + params.hdpc_symbols,
    ensures
        ({
            let word = |y: int, i: int|
                (code.v0[(y + i) % 256] ^ code.v1[(y / 256 + i) % 256] ^ code.v2[(y / 65536 + i)
                    % 256] ^ code.v3[(y / 16777216 + i) % 256]) as int;
            let h = params.hdpc_symbols as int;
            let width = params.kprime + params.ldpc_symbols;
            let first = word(j + 1, 6) % h;
            let second = (first + word(j + 1, 7) % (h - 1) + 1) % h;
            let coefs = hdpc_coefs(code, params, i);
            &&& coefs.len() == width + h
            &&& first != second
            &&& j < width - 1 ==> coefs[j] ^ gf_mul(2, coefs[j + 1]) == if i == first || i
                == second {
                1u8
            } else {
                0u8
            }
            &&& j == width - 1 && i == 0 ==> coefs[j] == 1
            &&& j == width - 1 && i > 0 ==> coefs[j] == gf_mul(
                2,
                hdpc_coefs(code, params, i - 1)[j],
            )
            &&& width <= j ==> (coefs[j] == 1 <==> j == width + i)
            &&& width <= j && j != width + i ==> coefs[j] == 0
        }),
{
    let h = params.hdpc_symbols as int;
    let width = params.kprime + params.ldpc_symbols;
    law_random_value(code, j + 1, 6, h);
    law_random_value(code, j + 1, 7, h - 1);
    let first = random_value(code, j + 1, 6, h);
    let step = random_value(code, j + 1, 7, h - 1) + 1;
    assert((first + step) % h != first) by (nonlinear_arith)
        requires
            0 <= first < h,
            1 <= step < h,
    ;
    if j < width - 1 {
        let m = gf_mul(2, hdpc_coef(code, params, i, j + 1));
        lemma_xor(m, 1, m);
        lemma_xor(m, 0, m);
        lemma_xor(1, m, m);
        lemma_xor(m, m, 1);
        lemma_xor(1, 0, 0);
    }
    if i > 0 {
        assert(gf_alpha(i as nat) == gf_mul(2, gf_alpha((i - 1) as nat)));
    }
}

/// Multiplication by the generator: twice the byte, reduced by the polynomial
/// `x^8 + x^4 + x^3 + x^2 + 1` where it does not fit. With the laws of a field this determines
/// every product.
pub proof fn law_generator(a: u8)
    ensures
        a < 128 ==> gf_mul(2, a) == 2 * a,
        a >= 128 ==> gf_mul(2, a) == ((2 * a - 256) as u8) ^ 29,
        gf_mul(1, a) == a,
        gf_mul(0, a) == 0,
{
    lemma_mul_units(a);
    lemma_double(1, a);
    assert(gf_double(1) == 2) by (bit_vector);
    assert(a < 128 ==> gf_double(a) == 2 * a) by (bit_vector);
    assert(a >= 128 ==> gf_double(a) == ((2 * a - 256) as u8) ^ 29) by (bit_vector);
}

/// Powers of the generator multiply by adding their exponents.
pub proof fn law_powers(i: nat, j: nat)
    ensures
        gf_alpha(0) == 1,
        gf_alpha(1) == 2,
        gf_alpha(i + j) == gf_mul(gf_alpha(i), gf_alpha(j)),
    decreases i,
{
    lemma_mul_units(2);
    assert(gf_alpha(1) == gf_mul(2, gf_alpha(0)));
    if i == 0 {
        lemma_mul_units(gf_alpha(j));
    } else {
        law_powers((i - 1) as nat, j);
        lemma_mul_associative(2, gf_alpha((i - 1) as nat), gf_alpha(j));
        assert(gf_alpha(i + j) == gf_mul(2, gf_alpha((i + j - 1) as nat)));
    }
}

} // verus!
