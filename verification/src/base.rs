//! Packets, partitions and the tuples that drive the LT encoding.

use crate::rng::{rand, random_value};
use crate::systematic_constants::{CodeTables, CodeView};
use vstd::prelude::*;

verus! {

/// Cumulative distribution of the degrees, scaled to 2^20: degree `d` is drawn for values from
/// entry `d - 1` up to, but without, entry `d`.
pub const DEGREE_THRESHOLDS: [u32; 31] = [
    0,
    5243,
    529531,
    704294,
    791675,
    844104,
    879057,
    904023,
    922747,
    937311,
    948962,
    958494,
    966438,
    973160,
    978921,
    983914,
    988283,
    992138,
    995565,
    998631,
    1001391,
    1003887,
    1006157,
    1008229,
    1010129,
    1011876,
    1013490,
    1014983,
    1016370,
    1017662,
    1048576,
];

/// `d` is the degree drawn for `v`.
pub open spec fn draws_degree(v: int, d: int) -> bool {
    &&& 1 <= d <= 30
    &&& v < DEGREE_THRESHOLDS@[d]
    &&& forall|e: int| 1 <= e < d ==> #[trigger] DEGREE_THRESHOLDS@[e] <= v
}

/// The degree drawn for `v`, limited to two less than the number of LT symbols.
pub open spec fn degree(v: int, lt_symbols: int) -> int {
    let d = choose|d: int| draws_degree(v, d);
    if d <= lt_symbols - 2 {
        d
    } else {
        lt_symbols - 2
    }
}

/// Draws the degree for `v`.
pub fn deg(v: u32, lt_symbols: u32) -> (r: u32)
    requires
        v < 0x10_0000,
        lt_symbols >= 3,
    ensures
        r == degree(v as int, lt_symbols as int),
        1 <= r <= 30,
        r <= lt_symbols - 2,
{
    let mut d: usize = 1;
    while v >= DEGREE_THRESHOLDS[d]
        invariant
            1 <= d <= 30,
            v < 0x10_0000,
            forall|e: int| 1 <= e < d ==> #[trigger] DEGREE_THRESHOLDS@[e] <= v,
        decreases 30 - d,
    {
        d = d + 1;
    }
    proof {
        assert(draws_degree(v as int, d as int));
        let e = choose|e: int| draws_degree(v as int, e);
        assert(draws_degree(v as int, e));
        assert(e == d);
    }
    if d as u32 <= lt_symbols - 2 {
        d as u32
    } else {
        lt_symbols - 2
    }
}

/// The parameters of one encoding symbol: `d` LT symbols from `b` on in steps of `a`, and `d1` PI
/// symbols from `b1` on in steps of `a1`.
#[derive(Clone, Copy, Debug, PartialEq, Eq, Structural)]
pub struct IntermediateTuple {
    pub d: u32,
    pub a: u32,
    pub b: u32,
    pub d1: u32,
    pub a1: u32,
    pub b1: u32,
}

/// The multiplier for a systematic index: an odd number.
pub open spec fn tuple_factor(systematic_index: int) -> int {
    let a = 53591 + systematic_index * 997;
    if a % 2 == 0 {
        a + 1
    } else {
        a
    }
}

/// The number from which the LT part of a tuple is drawn.
pub open spec fn tuple_seed(internal_symbol_id: int, systematic_index: int) -> int {
    (10267 * (systematic_index + 1) + internal_symbol_id * tuple_factor(systematic_index))
        % 0x1_0000_0000
}

/// The tuple of an encoding symbol.
pub open spec fn tuple_of(
    code: CodeView,
    internal_symbol_id: int,
    lt_symbols: int,
    systematic_index: int,
    p1: int,
) -> IntermediateTuple {
    let y = tuple_seed(internal_symbol_id, systematic_index);
    let d = degree(random_value(code, y, 0, 0x10_0000), lt_symbols);
    IntermediateTuple {
        d: d as u32,
        a: (1 + random_value(code, y, 1, lt_symbols - 1)) as u32,
        b: random_value(code, y, 2, lt_symbols) as u32,
        d1: if d < 4 {
            (2 + random_value(code, internal_symbol_id, 3, 2)) as u32
        } else {
            2
        },
        a1: (1 + random_value(code, internal_symbol_id, 4, p1 - 1)) as u32,
        b1: random_value(code, internal_symbol_id, 5, p1) as u32,
    }
}

/// A tuple's steps are proper residues and its degrees are positive.
pub open spec fn tuple_in_range(tuple: IntermediateTuple, lt_symbols: int, p1: int) -> bool {
    &&& 1 <= tuple.d <= 30
    &&& tuple.d <= lt_symbols - 2
    &&& 1 <= tuple.a < lt_symbols
    &&& tuple.b < lt_symbols
    &&& 2 <= tuple.d1 <= 3
    &&& 1 <= tuple.a1 < p1
    &&& tuple.b1 < p1
}

/// Computes the tuple of an encoding symbol.
pub fn intermediate_tuple(
    tables: &CodeTables,
    internal_symbol_id: u32,
    lt_symbols: u32,
    systematic_index: u32,
    p1: u32,
) -> (r: IntermediateTuple)
    requires
        lt_symbols >= 3,
        systematic_index < 0x1_0000,
        p1 >= 2,
    ensures
        r == tuple_of(
            tables@,
            internal_symbol_id as int,
            lt_symbols as int,
            systematic_index as int,
            p1 as int,
        ),
        tuple_in_range(r, lt_symbols as int, p1 as int),
{
    let mut factor: u32 = 53591 + systematic_index * 997;
    if factor % 2 == 0 {
        factor = factor + 1;
    }
    let start: u32 = 10267 * (systematic_index + 1);
    assert(internal_symbol_id * factor <= 0xffff_ffff * 0xffff_ffff) by (nonlinear_arith);
    assert(internal_symbol_id * factor >= 0) by (nonlinear_arith);
    assert(0xffff_ffff * 0xffff_ffff + 0xffff_ffff <= u64::MAX);
    let y: u32 = ((start as u64 + internal_symbol_id as u64 * factor as u64)
        % 0x1_0000_0000) as u32;
    let v: u32 = rand(tables, y, 0, 0x10_0000);
    let d: u32 = deg(v, lt_symbols);
    let a: u32 = 1 + rand(tables, y, 1, lt_symbols - 1);
    let b: u32 = rand(tables, y, 2, lt_symbols);
    let d1: u32 = if d < 4 {
        2 + rand(tables, internal_symbol_id, 3, 2)
    } else {
        2
    };
    let a1: u32 = 1 + rand(tables, internal_symbol_id, 4, p1 - 1);
    let b1: u32 = rand(tables, internal_symbol_id, 5, p1);
    IntermediateTuple { d, a, b, d1, a1, b1 }
}

/// The number of encoding symbol IDs.
pub const ENCODING_SYMBOL_IDS: u32 = 0x100_0000;

/// Identifies an encoding symbol: the block that it belongs to and its ID in that block.
///
/// The ID is below [`ENCODING_SYMBOL_IDS`] by construction.
#[derive(Clone, Copy, Debug, PartialEq, Eq)]
pub struct PayloadId {
    source_block_number: u8,
    encoding_symbol_id: u32,
}

impl PayloadId {
    /// The number of the source block.
    pub closed spec fn block(self) -> u8 {
        self.source_block_number
    }

    /// The ID of the encoding symbol.
    pub closed spec fn esi(self) -> u32 {
        self.encoding_symbol_id
    }

    #[verifier::type_invariant]
    spec fn inv(self) -> bool {
        self.encoding_symbol_id < ENCODING_SYMBOL_IDS
    }

    /// The identifier of symbol `encoding_symbol_id` of block `source_block_number`.
    pub fn new(source_block_number: u8, encoding_symbol_id: u32) -> (r: PayloadId)
        requires
            encoding_symbol_id < ENCODING_SYMBOL_IDS,
        ensures
            r.block() == source_block_number,
            r.esi() == encoding_symbol_id,
    {
        PayloadId { source_block_number, encoding_symbol_id }
    }

    /// The number of the source block.
    pub fn source_block_number(&self) -> (r: u8)
        ensures
            r == self.block(),
    {
        self.source_block_number
    }

    /// The ID of the encoding symbol.
    pub fn encoding_symbol_id(&self) -> (r: u32)
        ensures
            r == self.esi(),
            r < ENCODING_SYMBOL_IDS,
    {
        proof {
            use_type_invariant(self);
        }
        self.encoding_symbol_id
    }
}

/// An encoding symbol with its identifier.
#[derive(Debug)]
pub struct EncodingPacket {
    pub payload_id: PayloadId,
    pub data: Vec<u8>,
}

impl EncodingPacket {
    /// The packet that carries `data` under `payload_id`.
    pub fn new(payload_id: PayloadId, data: Vec<u8>) -> (r: EncodingPacket)
        ensures
            r.payload_id == payload_id,
            r.data == data,
    {
        EncodingPacket { payload_id, data }
    }

    /// The identifier of the symbol.
    pub fn payload_id(&self) -> (r: &PayloadId)
        ensures
            *r == self.payload_id,
    {
        &self.payload_id
    }

    /// The bytes of the symbol.
    pub fn data(&self) -> (r: &[u8])
        ensures
            r@ == self.data@,
    {
        self.data.as_slice()
    }
}

impl Clone for EncodingPacket {
    fn clone(&self) -> (r: EncodingPacket)
        ensures
            r.payload_id == self.payload_id,
            r.data@ == self.data@,
    {
        let mut data: Vec<u8> = Vec::with_capacity(self.data.len());
        data.extend_from_slice(self.data.as_slice());
        proof {
            assert(data@ =~= self.data@);
        }
        EncodingPacket { payload_id: self.payload_id, data }
    }
}

/// The division of `i` items into `j` parts of nearly equal size: the larger size, the smaller
/// size, and how many parts have each.
pub open spec fn partition_of(i: int, j: int) -> (int, int, int, int) {
    ((i + j - 1) / j, i / j, i % j, j - i % j)
}

/// The parts of a division are `j` in number and hold `i` items in all; the two sizes differ by
/// one, or are equal where no part is of the larger one.
pub proof fn lemma_partition(i: int, j: int)
    requires
        0 <= i,
        0 < j,
    ensures
        ({
            let (large, small, nl, ns) = partition_of(i, j);
            &&& nl * large + ns * small == i
            &&& nl + ns == j
            &&& 0 <= nl
            &&& 0 < ns
            &&& 0 <= small
            &&& large == if nl == 0 {
                small
            } else {
                small + 1
            }
        }),
{
    let q = i / j;
    let r = i % j;
    vstd::arithmetic::div_mod::lemma_fundamental_div_mod(i, j);
    vstd::arithmetic::div_mod::lemma_mod_bound(i, j);
    assert(q >= 0) by (nonlinear_arith)
        requires
            0 <= i,
            0 < j,
            q == i / j,
    ;
    if r == 0 {
        assert((i + j - 1) / j == q) by (nonlinear_arith)
            requires
                i == j * q,
                0 < j,
        ;
        assert(r * q + (j - r) * q == i) by (nonlinear_arith)
            requires
                r == 0,
                i == j * q,
        ;
    } else {
        assert((i + j - 1) / j == q + 1) by (nonlinear_arith)
            requires
                i == j * q + r,
                0 < r < j,
        ;
        assert(r * (q + 1) + (j - r) * q == i) by (nonlinear_arith)
            requires
                i == j * q + r,
        ;
    }
}

/// Divides `i` items into `j` parts of nearly equal size.
pub fn partition(i: u32, j: u16) -> (r: (u32, u32, u32, u32))
    requires
        j > 0,
    ensures
        (r.0 as int, r.1 as int, r.2 as int, r.3 as int) == partition_of(i as int, j as int),
{
    let j: u32 = j as u32;
    let small: u32 = i / j;
    let nl: u32 = i % j;
    proof {
        lemma_partition(i as int, j as int);
        vstd::arithmetic::div_mod::lemma_fundamental_div_mod(i as int, j as int);
        assert(nl != 0 ==> small + 1 <= i) by (nonlinear_arith)
            requires
                i == j * small + nl,
                j > 0,
        ;
    }
    let large: u32 = if nl == 0 {
        small
    } else {
        small + 1
    };
    (large, small, nl, j - nl)
}

} // verus!
