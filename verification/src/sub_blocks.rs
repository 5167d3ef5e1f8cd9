//! The layout of a decoded block.

use crate::base::{lemma_partition, partition, partition_of};
use crate::gf256::{lemma_mul_units, lemma_xor};
use crate::symbol::{add_scaled, zero_bytes, Symbol};
use vstd::prelude::*;

verus! {

/// The position in a symbol at which its part for sub-block `b` starts.
pub open spec fn part_start(symbol_size: int, sub_blocks: int, alignment: int, b: int) -> int {
    let (large, small, nl, ns) = partition_of(symbol_size / alignment, sub_blocks);
    if b <= nl {
        b * large * alignment
    } else {
        (nl * large + (b - nl) * small) * alignment
    }
}

/// The bytes from `lo` to `hi` of each symbol, one symbol after the other.
pub open spec fn parts(symbols: Seq<Seq<u8>>, lo: int, hi: int) -> Seq<u8>
    decreases symbols.len(),
{
    if symbols.len() == 0 {
        Seq::empty()
    } else {
        parts(symbols.drop_last(), lo, hi) + symbols.last().subrange(lo, hi)
    }
}

/// The first `n` sub-blocks, one after the other.
pub open spec fn leading_sub_blocks(
    symbols: Seq<Seq<u8>>,
    symbol_size: int,
    sub_blocks: int,
    alignment: int,
    n: int,
) -> Seq<u8>
    decreases n,
{
    if n <= 0 {
        Seq::empty()
    } else {
        leading_sub_blocks(symbols, symbol_size, sub_blocks, alignment, n - 1) + parts(
            symbols,
            part_start(symbol_size, sub_blocks, alignment, n - 1),
            part_start(symbol_size, sub_blocks, alignment, n),
        )
    }
}

/// The block that the symbols make up: sub-block after sub-block, each holding its part of every
/// symbol. Where the symbol size is not a multiple of the alignment, the bytes left over at the end
/// of the symbols are dropped and the block is filled up with zeros.
pub open spec fn block_layout(
    symbols: Seq<Seq<u8>>,
    symbol_size: int,
    sub_blocks: int,
    alignment: int,
) -> Seq<u8> {
    leading_sub_blocks(symbols, symbol_size, sub_blocks, alignment, sub_blocks) + zero_bytes(
        (symbols.len() * (symbol_size % alignment)) as nat,
    )
}

/// The parts of a symbol follow each other, from its start up to the last multiple of the
/// alignment.
pub proof fn lemma_part_start(symbol_size: int, sub_blocks: int, alignment: int, b: int)
    requires
        0 <= symbol_size,
        0 < sub_blocks,
        0 < alignment,
        0 <= b < sub_blocks,
    ensures
        ({
            let (large, small, nl, ns) = partition_of(symbol_size / alignment, sub_blocks);
            let lo = part_start(symbol_size, sub_blocks, alignment, b);
            let hi = part_start(symbol_size, sub_blocks, alignment, b + 1);
            &&& 0 <= lo <= hi <= symbol_size
            &&& hi - lo == (if b < nl {
                large
            } else {
                small
            }) * alignment
        }),
        part_start(symbol_size, sub_blocks, alignment, 0) == 0,
        part_start(symbol_size, sub_blocks, alignment, sub_blocks) == symbol_size - symbol_size
            % alignment,
{
    let units = symbol_size / alignment;
    vstd::arithmetic::div_mod::lemma_fundamental_div_mod(symbol_size, alignment);
    vstd::arithmetic::div_mod::lemma_mod_bound(symbol_size, alignment);
    assert(units >= 0) by (nonlinear_arith)
        requires
            0 <= symbol_size,
            0 < alignment,
            units == symbol_size / alignment,
    ;
    lemma_partition(units, sub_blocks);
    let (large, small, nl, ns) = partition_of(units, sub_blocks);
    assert(units * alignment == symbol_size - symbol_size % alignment) by (nonlinear_arith)
        requires
            symbol_size == alignment * units + symbol_size % alignment,
    ;
    // The parts in units of the alignment.
    let lo = if b <= nl {
        b * large
    } else {
        nl * large + (b - nl) * small
    };
    let hi = if b + 1 <= nl {
        (b + 1) * large
    } else {
        nl * large + (b + 1 - nl) * small
    };
    let size = if b < nl {
        large
    } else {
        small
    };
    assert(hi - lo == size) by (nonlinear_arith)
        requires
            lo == if b <= nl {
                b * large
            } else {
                nl * large + (b - nl) * small
            },
            hi == if b + 1 <= nl {
                (b + 1) * large
            } else {
                nl * large + (b + 1 - nl) * small
            },
            size == if b < nl {
                large
            } else {
                small
            },
    ;
    assert(lo >= 0) by (nonlinear_arith)
        requires
            lo == if b <= nl {
                b * large
            } else {
                nl * large + (b - nl) * small
            },
            b >= 0,
            nl >= 0,
            large >= 0,
            small >= 0,
    ;
    assert(hi <= units) by (nonlinear_arith)
        requires
            hi == if b + 1 <= nl {
                (b + 1) * large
            } else {
                nl * large + (b + 1 - nl) * small
            },
            b + 1 <= nl + ns,
            nl * large + ns * small == units,
            nl >= 0,
            ns >= 0,
            large >= 0,
            small >= 0,
    ;
    assert(0 <= lo * alignment <= hi * alignment <= units * alignment) by (nonlinear_arith)
        requires
            0 <= lo <= hi <= units,
            alignment > 0,
    ;
    assert(hi * alignment - lo * alignment == size * alignment) by (nonlinear_arith)
        requires
            hi - lo == size,
    ;
    assert(part_start(symbol_size, sub_blocks, alignment, b) == lo * alignment);
    assert(part_start(symbol_size, sub_blocks, alignment, b + 1) == hi * alignment);
    assert(0 * large * alignment == 0) by (nonlinear_arith);
    assert(part_start(symbol_size, sub_blocks, alignment, sub_blocks) == (nl * large + ns * small)
        * alignment);
}

/// The bytes of each symbol.
pub open spec fn symbol_bytes(symbols: Seq<Symbol>) -> Seq<Seq<u8>> {
    Seq::new(symbols.len(), |i: int| symbols[i]@)
}

/// Lays the symbols out as a block.
pub fn assemble_block(
    symbols: &[Symbol],
    symbol_size: u16,
    num_sub_blocks: u16,
    symbol_alignment: u8,
) -> (r: Vec<u8>)
    requires
        num_sub_blocks > 0,
        symbol_alignment > 0,
        forall|i: int| 0 <= i < symbols@.len() ==> (#[trigger] symbols@[i])@.len() == symbol_size,
        symbols@.len() * symbol_size <= usize::MAX,
    ensures
        r@ == block_layout(
            symbol_bytes(symbols@),
            symbol_size as int,
            num_sub_blocks as int,
            symbol_alignment as int,
        ),
{
    let ghost bytes = symbol_bytes(symbols@);
    let ghost size = symbol_size as int;
    let ghost subs = num_sub_blocks as int;
    let ghost align = symbol_alignment as int;
    let (tl, ts, nl, ns) = partition(
        (symbol_size / symbol_alignment as u16) as u32,
        num_sub_blocks,
    );
    proof {
        lemma_part_start(size, subs, align, 0);
        assert((symbol_size % symbol_alignment as u16) <= symbol_size);
        assert(symbols@.len() * (symbol_size % symbol_alignment as u16) <= symbols@.len()
            * symbol_size) by (nonlinear_arith)
            requires
                (symbol_size % symbol_alignment as u16) <= symbol_size,
                symbols@.len() >= 0,
        ;
    }
    let mut result: Vec<u8> = Vec::new();
    let mut offset: usize = 0;
    let mut sub_block: u32 = 0;
    while sub_block < nl + ns
        invariant
            sub_block <= subs,
            nl + ns == subs,
            subs == num_sub_blocks,
            size == symbol_size,
            0 < align == symbol_alignment,
            (tl as int, ts as int, nl as int, ns as int) == partition_of(size / align, subs),
            bytes == symbol_bytes(symbols@),
            forall|i: int|
                0 <= i < symbols@.len() ==> (#[trigger] symbols@[i])@.len() == symbol_size,
            offset == part_start(size, subs, align, sub_block as int),
            result@ == leading_sub_blocks(bytes, size, subs, align, sub_block as int),
        decreases nl + ns - sub_block,
    {
        let ghost before = result@;
        let ghost hi = part_start(size, subs, align, sub_block + 1);
        proof {
            lemma_part_start(size, subs, align, sub_block as int);
            assert(sub_block < nl ==> tl * symbol_alignment == hi - offset);
            assert(sub_block >= nl ==> ts * symbol_alignment == hi - offset);
            assert(tl * symbol_alignment >= tl && ts * symbol_alignment >= ts) by (nonlinear_arith)
                requires
                    symbol_alignment >= 1,
            ;
        }
        let part: usize = if sub_block < nl {
            tl as usize * symbol_alignment as usize
        } else {
            ts as usize * symbol_alignment as usize
        };
        let end: usize = offset + part;
        let mut i: usize = 0;
        proof {
            assert(bytes.take(0) =~= Seq::<Seq<u8>>::empty());
            assert(result@ =~= before + parts(bytes.take(0), offset as int, end as int));
        }
        while i < symbols.len()
            invariant
                i <= symbols@.len(),
                offset <= end <= symbol_size,
                bytes == symbol_bytes(symbols@),
                forall|i: int|
                    0 <= i < symbols@.len() ==> (#[trigger] symbols@[i])@.len() == symbol_size,
                result@ == before + parts(bytes.take(i as int), offset as int, end as int),
            decreases symbols@.len() - i,
        {
            let ghost done = result@;
            let piece: &[u8] = vstd::slice::slice_subrange(symbols[i].as_bytes(), offset, end);
            result.extend_from_slice(piece);
            proof {
                assert(bytes.take(i + 1).drop_last() =~= bytes.take(i as int));
                assert(bytes.take(i + 1).last() == symbols@[i as int]@);
                assert(result@ =~= done + piece@);
                assert(result@ =~= before + parts(bytes.take(i + 1), offset as int, end as int));
            }
            i = i + 1;
        }
        proof {
            assert(bytes.take(symbols@.len() as int) =~= bytes);
        }
        offset = end;
        sub_block = sub_block + 1;
    }
    let rest: usize = symbols.len() * (symbol_size % symbol_alignment as u16) as usize;
    let mut i: usize = 0;
    proof {
        assert(result@ =~= leading_sub_blocks(bytes, size, subs, align, subs) + zero_bytes(0));
    }
    while i < rest
        invariant
            i <= rest,
            result@ == leading_sub_blocks(bytes, size, subs, align, subs) + zero_bytes(i as nat),
        decreases rest - i,
    {
        result.push(0u8);
        proof {
            assert(zero_bytes((i + 1) as nat) =~= zero_bytes(i as nat).push(0u8));
            assert(result@ =~= leading_sub_blocks(bytes, size, subs, align, subs) + zero_bytes(
                (i + 1) as nat,
            ));
        }
        i = i + 1;
    }
    result
}

/// All symbols have `size` bytes.
pub open spec fn all_sized(symbols: Seq<Seq<u8>>, size: int) -> bool {
    forall|i: int| 0 <= i < symbols.len() ==> (#[trigger] symbols[i]).len() == size
}

/// Parts of equal size follow each other.
proof fn lemma_parts(symbols: Seq<Seq<u8>>, size: int, lo: int, hi: int)
    requires
        all_sized(symbols, size),
        0 <= lo <= hi <= size,
    ensures
        parts(symbols, lo, hi).len() == symbols.len() * (hi - lo),
        forall|i: int, u: int|
            0 <= i < symbols.len() && lo <= u < hi ==> #[trigger] parts(symbols, lo, hi)[i * (hi
                - lo) + (u - lo)] == #[trigger] symbols[i][u],
    decreases symbols.len(),
{
    let width = hi - lo;
    if symbols.len() == 0 {
        assert(0 * width == 0) by (nonlinear_arith);
    } else {
        let shorter = symbols.drop_last();
        let last = symbols.last();
        let n = symbols.len() as int;
        assert(last == symbols[n - 1]);
        assert forall|i: int| 0 <= i < shorter.len() implies (#[trigger] shorter[i]).len()
            == size by {
            assert(shorter[i] == symbols[i]);
        }
        lemma_parts(shorter, size, lo, hi);
        assert((n - 1) * width + width == n * width) by (nonlinear_arith);
        let before = parts(shorter, lo, hi);
        let all = parts(symbols, lo, hi);
        assert forall|i: int, u: int| 0 <= i < n && lo <= u < hi implies #[trigger] all[i * (hi
            - lo) + (u - lo)] == #[trigger] symbols[i][u] by {
            if i < n - 1 {
                assert(shorter[i] == symbols[i]);
                assert(0 <= i * width && i * width + width <= (n - 1) * width) by (nonlinear_arith)
                    requires
                        0 <= i <= n - 2,
                        width >= 0,
                ;
                assert(before[i * (hi - lo) + (u - lo)] == shorter[i][u]);
            } else {
                assert(all[(n - 1) * width + (u - lo)] == last.subrange(lo, hi)[u - lo]);
            }
        }
    }
}

/// The sub-blocks before sub-block `n` take up as much as the parts before it in all symbols.
proof fn lemma_leading_length(
    symbols: Seq<Seq<u8>>,
    symbol_size: int,
    sub_blocks: int,
    alignment: int,
    n: int,
)
    requires
        all_sized(symbols, symbol_size),
        0 <= symbol_size,
        0 < sub_blocks,
        0 < alignment,
        0 <= n <= sub_blocks,
    ensures
        leading_sub_blocks(symbols, symbol_size, sub_blocks, alignment, n).len() == symbols.len()
            * part_start(symbol_size, sub_blocks, alignment, n),
    decreases n,
{
    if n == 0 {
        lemma_part_start(symbol_size, sub_blocks, alignment, 0);
        assert(symbols.len() * 0 == 0) by (nonlinear_arith);
    } else {
        lemma_leading_length(symbols, symbol_size, sub_blocks, alignment, n - 1);
        lemma_part_start(symbol_size, sub_blocks, alignment, n - 1);
        let lo = part_start(symbol_size, sub_blocks, alignment, n - 1);
        let hi = part_start(symbol_size, sub_blocks, alignment, n);
        lemma_parts(symbols, symbol_size, lo, hi);
        assert(symbols.len() * lo + symbols.len() * (hi - lo) == symbols.len() * hi)
            by (nonlinear_arith);
    }
}

/// Later sub-blocks do not move earlier ones.
proof fn lemma_leading_prefix(
    symbols: Seq<Seq<u8>>,
    symbol_size: int,
    sub_blocks: int,
    alignment: int,
    n: int,
    m: int,
)
    requires
        0 <= n <= m,
    ensures
        leading_sub_blocks(symbols, symbol_size, sub_blocks, alignment, n).is_prefix_of(
            leading_sub_blocks(symbols, symbol_size, sub_blocks, alignment, m),
        ),
    decreases m - n,
{
    if n < m {
        lemma_leading_prefix(symbols, symbol_size, sub_blocks, alignment, n, m - 1);
        let shorter = leading_sub_blocks(symbols, symbol_size, sub_blocks, alignment, n);
        let middle = leading_sub_blocks(symbols, symbol_size, sub_blocks, alignment, m - 1);
        let longer = leading_sub_blocks(symbols, symbol_size, sub_blocks, alignment, m);
        assert(longer.subrange(0, shorter.len() as int) =~= middle.subrange(
            0,
            shorter.len() as int,
        ));
    }
}

/// A block is as long as its symbols together.
pub proof fn law_layout_length(
    symbols: Seq<Seq<u8>>,
    symbol_size: int,
    sub_blocks: int,
    alignment: int,
)
    requires
        all_sized(symbols, symbol_size),
        0 <= symbol_size,
        0 < sub_blocks,
        0 < alignment,
    ensures
        block_layout(symbols, symbol_size, sub_blocks, alignment).len() == symbols.len()
            * symbol_size,
{
    lemma_part_start(symbol_size, sub_blocks, alignment, 0);
    lemma_leading_length(symbols, symbol_size, sub_blocks, alignment, sub_blocks);
    let rest = symbol_size % alignment;
    vstd::arithmetic::div_mod::lemma_mod_bound(symbol_size, alignment);
    assert(symbols.len() * rest >= 0) by (nonlinear_arith)
        requires
            rest >= 0,
    ;
    assert(symbols.len() * (symbol_size - rest) + symbols.len() * rest == symbols.len()
        * symbol_size) by (nonlinear_arith);
}

/// Where each byte of a symbol stands: byte `u` of symbol `i`, if it belongs to sub-block `b`,
/// stands in that sub-block, after the parts of the symbols before it.
pub proof fn law_layout_position(
    symbols: Seq<Seq<u8>>,
    symbol_size: int,
    sub_blocks: int,
    alignment: int,
    b: int,
    i: int,
    u: int,
)
    requires
        all_sized(symbols, symbol_size),
        0 <= symbol_size,
        0 < alignment,
        0 <= b < sub_blocks,
        0 <= i < symbols.len(),
        part_start(symbol_size, sub_blocks, alignment, b) <= u < part_start(
            symbol_size,
            sub_blocks,
            alignment,
            b + 1,
        ),
    ensures
        ({
            let lo = part_start(symbol_size, sub_blocks, alignment, b);
            let hi = part_start(symbol_size, sub_blocks, alignment, b + 1);
            let at = symbols.len() * lo + i * (hi - lo) + (u - lo);
            let block = block_layout(symbols, symbol_size, sub_blocks, alignment);
            &&& 0 <= at < block.len()
            &&& block[at] == symbols[i][u]
        }),
{
    let lo = part_start(symbol_size, sub_blocks, alignment, b);
    let hi = part_start(symbol_size, sub_blocks, alignment, b + 1);
    let width = hi - lo;
    let at = symbols.len() * lo + i * (hi - lo) + (u - lo);
    lemma_part_start(symbol_size, sub_blocks, alignment, b);
    lemma_leading_length(symbols, symbol_size, sub_blocks, alignment, b);
    lemma_leading_length(symbols, symbol_size, sub_blocks, alignment, b + 1);
    lemma_parts(symbols, symbol_size, lo, hi);
    lemma_leading_prefix(symbols, symbol_size, sub_blocks, alignment, b + 1, sub_blocks);
    let n = symbols.len() as int;
    assert(0 <= i * width && i * width + width <= n * width) by (nonlinear_arith)
        requires
            0 <= i <= n - 1,
            width >= 0,
    ;
    assert(n * lo >= 0) by (nonlinear_arith)
        requires
            n >= 0,
            lo >= 0,
    ;
    assert(n * lo + n * width == n * hi) by (nonlinear_arith)
        requires
            width == hi - lo,
    ;
    let own = leading_sub_blocks(symbols, symbol_size, sub_blocks, alignment, b + 1);
    let all = leading_sub_blocks(symbols, symbol_size, sub_blocks, alignment, sub_blocks);
    assert(own[at] == parts(symbols, lo, hi)[i * (hi - lo) + (u - lo)]);
    assert(parts(symbols, lo, hi)[i * (hi - lo) + (u - lo)] == symbols[i][u]);
    assert(all[at] == own[at]);
}

/// With one sub-block and no alignment the symbols follow each other as they are.
pub proof fn law_single_sub_block(symbols: Seq<Seq<u8>>, symbol_size: int, i: int, u: int)
    requires
        all_sized(symbols, symbol_size),
        0 <= i < symbols.len(),
        0 <= u < symbol_size,
    ensures
        block_layout(symbols, symbol_size, 1, 1).len() == symbols.len() * symbol_size,
        block_layout(symbols, symbol_size, 1, 1)[i * symbol_size + u] == symbols[i][u],
{
    lemma_part_start(symbol_size, 1, 1, 0);
    assert(symbol_size % 1 == 0);
    assert(symbols.len() * 0 == 0) by (nonlinear_arith);
    law_layout_length(symbols, symbol_size, 1, 1);
    law_layout_position(symbols, symbol_size, 1, 1, 0, i, u);
}

/// The symbols are sums: each is one of the first plus a multiple of the same of the second.
pub open spec fn symbol_sums(
    sums: Seq<Seq<u8>>,
    first: Seq<Seq<u8>>,
    second: Seq<Seq<u8>>,
    scalar: u8,
) -> bool {
    &&& sums.len() == first.len()
    &&& sums.len() == second.len()
    &&& forall|i: int|
        0 <= i < sums.len() ==> #[trigger] sums[i] == add_scaled(first[i], second[i], scalar)
}

proof fn lemma_parts_linear(
    sums: Seq<Seq<u8>>,
    first: Seq<Seq<u8>>,
    second: Seq<Seq<u8>>,
    scalar: u8,
    size: int,
    lo: int,
    hi: int,
)
    requires
        symbol_sums(sums, first, second, scalar),
        all_sized(first, size),
        all_sized(second, size),
        0 <= lo <= hi <= size,
    ensures
        parts(first, lo, hi).len() == parts(second, lo, hi).len(),
        parts(sums, lo, hi) == add_scaled(parts(first, lo, hi), parts(second, lo, hi), scalar),
    decreases sums.len(),
{
    if sums.len() == 0 {
        assert(parts(sums, lo, hi) =~= add_scaled(
            parts(first, lo, hi),
            parts(second, lo, hi),
            scalar,
        ));
    } else {
        let last = sums.len() - 1;
        let (a, b, c) = (first.drop_last(), second.drop_last(), sums.drop_last());
        assert forall|i: int| 0 <= i < c.len() implies #[trigger] c[i] == add_scaled(
            a[i],
            b[i],
            scalar,
        ) by {
            assert(c[i] == sums[i]);
        }
        assert forall|i: int| 0 <= i < a.len() implies (#[trigger] a[i]).len() == size by {
            assert(a[i] == first[i]);
        }
        assert forall|i: int| 0 <= i < b.len() implies (#[trigger] b[i]).len() == size by {
            assert(b[i] == second[i]);
        }
        lemma_parts_linear(c, a, b, scalar, size, lo, hi);
        assert(sums[last] == add_scaled(first[last], second[last], scalar));
        assert(first[last].len() == size && second[last].len() == size);
        assert(sums.last().subrange(lo, hi) =~= add_scaled(
            first.last().subrange(lo, hi),
            second.last().subrange(lo, hi),
            scalar,
        ));
        assert(parts(sums, lo, hi) =~= add_scaled(
            parts(first, lo, hi),
            parts(second, lo, hi),
            scalar,
        ));
    }
}

proof fn lemma_leading_linear(
    sums: Seq<Seq<u8>>,
    first: Seq<Seq<u8>>,
    second: Seq<Seq<u8>>,
    scalar: u8,
    size: int,
    sub_blocks: int,
    alignment: int,
    n: int,
)
    requires
        symbol_sums(sums, first, second, scalar),
        all_sized(first, size),
        all_sized(second, size),
        0 <= size,
        0 < sub_blocks,
        0 < alignment,
        0 <= n <= sub_blocks,
    ensures
        leading_sub_blocks(first, size, sub_blocks, alignment, n).len() == leading_sub_blocks(
            second,
            size,
            sub_blocks,
            alignment,
            n,
        ).len(),
        leading_sub_blocks(sums, size, sub_blocks, alignment, n) == add_scaled(
            leading_sub_blocks(first, size, sub_blocks, alignment, n),
            leading_sub_blocks(second, size, sub_blocks, alignment, n),
            scalar,
        ),
    decreases n,
{
    if n > 0 {
        lemma_leading_linear(
            sums,
            first,
            second,
            scalar,
            size,
            sub_blocks,
            alignment,
            n - 1,
        );
        lemma_part_start(size, sub_blocks, alignment, n - 1);
        lemma_parts_linear(
            sums,
            first,
            second,
            scalar,
            size,
            part_start(size, sub_blocks, alignment, n - 1),
            part_start(size, sub_blocks, alignment, n),
        );
    }
    assert(leading_sub_blocks(sums, size, sub_blocks, alignment, n) =~= add_scaled(
        leading_sub_blocks(first, size, sub_blocks, alignment, n),
        leading_sub_blocks(second, size, sub_blocks, alignment, n),
        scalar,
    ));
}

/// The layout is linear: sums of symbols make up the sum of the blocks.
pub proof fn law_layout_linear(
    sums: Seq<Seq<u8>>,
    first: Seq<Seq<u8>>,
    second: Seq<Seq<u8>>,
    scalar: u8,
    symbol_size: int,
    sub_blocks: int,
    alignment: int,
)
    requires
        symbol_sums(sums, first, second, scalar),
        all_sized(first, symbol_size),
        all_sized(second, symbol_size),
        0 <= symbol_size,
        0 < sub_blocks,
        0 < alignment,
    ensures
        block_layout(sums, symbol_size, sub_blocks, alignment) == add_scaled(
            block_layout(first, symbol_size, sub_blocks, alignment),
            block_layout(second, symbol_size, sub_blocks, alignment),
            scalar,
        ),
{
    lemma_leading_linear(
        sums,
        first,
        second,
        scalar,
        symbol_size,
        sub_blocks,
        alignment,
        sub_blocks,
    );
    lemma_mul_units(scalar);
    lemma_xor(0, 0, 0);
    assert(block_layout(sums, symbol_size, sub_blocks, alignment) =~= add_scaled(
        block_layout(first, symbol_size, sub_blocks, alignment),
        block_layout(second, symbol_size, sub_blocks, alignment),
        scalar,
    ));
}

/// Where the bytes of the symbols stand, in plain arithmetic.
///
/// A symbol of `symbol_size` bytes has `symbol_size / alignment` units, which are divided among the
/// sub-blocks as evenly as possible, the first ones taking one more where the division leaves a
/// rest. Sub-block `b` holds that part of every symbol, one after the other. Bytes behind the last
/// unit are not laid out; the block ends in zeros instead.
pub proof fn law_layout_arithmetic(
    symbols: Seq<Seq<u8>>,
    symbol_size: int,
    sub_blocks: int,
    alignment: int,
    b: int,
    i: int,
    u: int,
)
    requires
        all_sized(symbols, symbol_size),
        0 <= symbol_size,
        0 < alignment,
        0 <= b < sub_blocks,
        0 <= i < symbols.len(),
    ensures
        ({
            let units = symbol_size / alignment;
            let (q, r) = (units / sub_blocks, units % sub_blocks);
            let width = if b < r {
                (q + 1) * alignment
            } else {
                q * alignment
            };
            let lo = if b < r {
                b * (q + 1) * alignment
            } else {
                (b * q + r) * alignment
            };
            let block = block_layout(symbols, symbol_size, sub_blocks, alignment);
            let at = symbols.len() * lo + i * width + u;
            &&& block.len() == symbols.len() * symbol_size
            &&& 0 <= u < width ==> 0 <= at < block.len() && lo + u < symbol_size && block[at]
                == symbols[i][lo + u]
            &&& symbols.len() * (units * alignment) <= u < block.len() ==> block[u] == 0
        }),
{
    let units = symbol_size / alignment;
    let (q, r) = (units / sub_blocks, units % sub_blocks);
    let n = symbols.len() as int;
    let width = if b < r {
        (q + 1) * alignment
    } else {
        q * alignment
    };
    let lo = if b < r {
        b * (q + 1) * alignment
    } else {
        (b * q + r) * alignment
    };
    vstd::arithmetic::div_mod::lemma_fundamental_div_mod(symbol_size, alignment);
    vstd::arithmetic::div_mod::lemma_mod_bound(symbol_size, alignment);
    assert(units >= 0) by (nonlinear_arith)
        requires
            0 <= symbol_size,
            0 < alignment,
            units == symbol_size / alignment,
    ;
    lemma_partition(units, sub_blocks);
    law_layout_length(symbols, symbol_size, sub_blocks, alignment);
    lemma_part_start(symbol_size, sub_blocks, alignment, b);
    let large = partition_of(units, sub_blocks).0;
    assert(part_start(symbol_size, sub_blocks, alignment, b) == lo) by {
        if b < r {
            assert(large == q + 1);
        } else if b == r {
            assert(b * large * alignment == (b * q + r) * alignment) by (nonlinear_arith)
                requires
                    b == r,
                    large == if r == 0 {
                        q
                    } else {
                        q + 1
                    },
            ;
        } else {
            assert(r * large + (b - r) * q == b * q + r) by (nonlinear_arith)
                requires
                    large == if r == 0 {
                        q
                    } else {
                        q + 1
                    },
            ;
        }
    }
    assert(part_start(symbol_size, sub_blocks, alignment, b + 1) == lo + width);
    if 0 <= u < width {
        law_layout_position(symbols, symbol_size, sub_blocks, alignment, b, i, lo + u);
    }
    lemma_leading_length(symbols, symbol_size, sub_blocks, alignment, sub_blocks);
    assert(units * alignment == symbol_size - symbol_size % alignment) by (nonlinear_arith)
        requires
            symbol_size == alignment * units + symbol_size % alignment,
    ;
}

} // verus!
