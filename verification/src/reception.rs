//! What a receiver knows of a block, and what it determines.

use crate::base::EncodingPacket;
use crate::constraint_matrix::{hdpc_coefs, ldpc_coefs, lt_coefs};
use crate::linear::{combination, kept, solves, symbols_shaped, trivial_kernel, Equation};
use crate::reduced::{REDUCED_LOST_THRESHOLD, REDUCED_MIN_SYMBOLS};
use crate::sub_blocks::block_layout;
use crate::symbol::{zero_bytes, Symbol};
use crate::systematic_constants::{BlockParameters, CodeView};
use vstd::prelude::*;

verus! {

/// The symbols of one block that have arrived.
pub struct Reception {
    /// The constants of the code.
    pub code: CodeView,
    /// The number of source symbols in the block.
    pub block_symbols: int,
    /// The number of bytes in a symbol.
    pub symbol_size: nat,
    /// The source symbols, in order; those that are lost are missing.
    pub sources: Seq<Option<Seq<u8>>>,
    /// The repair symbols with their encoding symbol IDs.
    pub repairs: Seq<(int, Seq<u8>)>,
}

/// The positions of the missing symbols, in order.
pub open spec fn missing(sources: Seq<Option<Seq<u8>>>) -> Seq<int>
    decreases sources.len(),
{
    if sources.len() == 0 {
        Seq::empty()
    } else if sources.last() is None {
        missing(sources.drop_last()).push(sources.len() - 1)
    } else {
        missing(sources.drop_last())
    }
}

/// One equation for each source symbol that has arrived, in order.
pub open spec fn source_equations(
    code: CodeView,
    params: BlockParameters,
    sources: Seq<Option<Seq<u8>>>,
) -> Seq<Equation>
    decreases sources.len(),
{
    if sources.len() == 0 {
        Seq::empty()
    } else {
        let before = source_equations(code, params, sources.drop_last());
        match sources.last() {
            Some(bytes) => before.push(
                Equation { coefs: lt_coefs(code, params, sources.len() - 1), rhs: bytes },
            ),
            None => before,
        }
    }
}

impl Reception {
    /// The code supports blocks of this size.
    pub open spec fn supported(self) -> bool {
        self.code.valid() && 0 <= self.block_symbols <= self.code.capacity()
    }

    /// The parameters of the block.
    pub open spec fn params(self) -> BlockParameters {
        self.code.parameters(self.block_symbols)
    }

    /// The number of intermediate symbols.
    pub open spec fn width(self) -> nat {
        self.params().total() as nat
    }

    /// The positions of the lost source symbols.
    pub open spec fn lost(self) -> Seq<int> {
        missing(self.sources)
    }

    /// The equation that the combination of the intermediate symbols is zero.
    pub open spec fn vanishing(self, coefs: Seq<u8>) -> Equation {
        Equation { coefs, rhs: zero_bytes(self.symbol_size) }
    }

    /// The padding symbols are zero.
    pub open spec fn padding_equations(self) -> Seq<Equation> {
        Seq::new(
            (self.params().kprime - self.block_symbols) as nat,
            |i: int|
                self.vanishing(lt_coefs(self.code, self.params(), self.block_symbols + i)),
        )
    }

    /// The LDPC relations.
    pub open spec fn ldpc_equations(self) -> Seq<Equation> {
        Seq::new(
            self.params().ldpc_symbols as nat,
            |i: int| self.vanishing(ldpc_coefs(self.params(), i)),
        )
    }

    /// The HDPC relations.
    pub open spec fn hdpc_equations(self) -> Seq<Equation> {
        Seq::new(
            self.params().hdpc_symbols as nat,
            |i: int| self.vanishing(hdpc_coefs(self.code, self.params(), i)),
        )
    }

    /// What is known of the intermediate symbols without the repair symbols.
    pub open spec fn constraints(self) -> Seq<Equation> {
        source_equations(self.code, self.params(), self.sources) + self.padding_equations()
            + self.ldpc_equations() + self.hdpc_equations()
    }

    /// The combination of the intermediate symbols that is the repair symbol with the given ID:
    /// repair symbols come after the padding.
    pub open spec fn repair_coefs(self, encoding_symbol_id: int) -> Seq<u8> {
        lt_coefs(
            self.code,
            self.params(),
            encoding_symbol_id + (self.params().kprime - self.block_symbols),
        )
    }

    /// What the first repair symbols, as many as there are lost ones, say of the intermediate
    /// symbols.
    pub open spec fn repair_equations(self) -> Seq<Equation> {
        Seq::new(
            self.lost().len(),
            |i: int|
                Equation {
                    coefs: self.repair_coefs(self.repairs[i].0),
                    rhs: self.repairs[i].1,
                },
        )
    }

    /// The reduced decoding is meant for this reception: some symbols are lost, but not too many,
    /// the block is not too small, and there are enough repair symbols.
    pub open spec fn applies(self) -> bool {
        &&& 1 <= self.lost().len() <= REDUCED_LOST_THRESHOLD
        &&& REDUCED_MIN_SYMBOLS <= self.block_symbols
        &&& self.lost().len() <= self.repairs.len()
    }

    /// The source symbols that have arrived and the repair symbols that are used have the size of
    /// a symbol.
    pub open spec fn sized(self) -> bool {
        &&& forall|i: int|
            0 <= i < self.sources.len() && (#[trigger] self.sources[i]) is Some
                ==> self.sources[i]->0.len() == self.symbol_size
        &&& forall|i: int|
            0 <= i < self.lost().len() ==> (#[trigger] self.repairs[i]).1.len() == self.symbol_size
    }

    /// The lost symbols can be recovered: the constraints leave exactly as many unknowns as symbols
    /// are lost, and together with the repair symbols they leave none.
    pub open spec fn recoverable(self) -> bool {
        &&& self.applies()
        &&& kept(self.constraints()).len() + self.lost().len() == self.width()
        &&& trivial_kernel(self.constraints() + self.repair_equations(), self.width())
    }

    /// The equations for the intermediate symbols: the constraints that do not depend on earlier
    /// ones, and the repair symbols.
    pub open spec fn system(self) -> Seq<Equation> {
        kept(self.constraints()) + self.repair_equations()
    }

    /// `x` are intermediate symbols that meet the equations.
    pub open spec fn is_solution(self, x: Seq<Seq<u8>>) -> bool {
        &&& symbols_shaped(x, self.width(), self.symbol_size)
        &&& solves(self.system(), x, self.symbol_size)
    }

    /// Source symbol `i`: as it arrived, or encoded from the intermediate symbols.
    pub open spec fn source_symbol(self, x: Seq<Seq<u8>>, i: int) -> Seq<u8> {
        match self.sources[i] {
            Some(bytes) => bytes,
            None => combination(lt_coefs(self.code, self.params(), i), x, self.symbol_size),
        }
    }

    /// All source symbols of the block.
    pub open spec fn source_symbols(self, x: Seq<Seq<u8>>) -> Seq<Seq<u8>> {
        Seq::new(self.block_symbols as nat, |i: int| self.source_symbol(x, i))
    }

    /// The equations have a solution, and whichever is taken, its source symbols make up `block`.
    pub open spec fn decodes_to(self, block: Seq<u8>, sub_blocks: int, alignment: int) -> bool {
        &&& exists|x: Seq<Seq<u8>>| #[trigger] self.is_solution(x)
        &&& forall|x: Seq<Seq<u8>>| #[trigger]
            self.is_solution(x) ==> block == block_layout(
                self.source_symbols(x),
                self.symbol_size as int,
                sub_blocks,
                alignment,
            )
    }
}

/// The bytes of the symbols that have arrived.
pub open spec fn optional_bytes(symbols: Seq<Option<Symbol>>) -> Seq<Option<Seq<u8>>> {
    Seq::new(
        symbols.len(),
        |i: int|
            match symbols[i] {
                Some(symbol) => Some(symbol@),
                None => None,
            },
    )
}

/// The encoding symbol ID and the bytes of each packet.
pub open spec fn packet_symbols(packets: Seq<EncodingPacket>) -> Seq<(int, Seq<u8>)> {
    Seq::new(packets.len(), |i: int| (packets[i].payload_id.esi() as int, packets[i].data@))
}

/// What the arguments of a decoding stand for.
pub open spec fn reception(
    code: CodeView,
    source_block_symbols: u32,
    symbol_size: u16,
    source_symbols: Seq<Option<Symbol>>,
    repair_packets: Seq<EncodingPacket>,
) -> Reception {
    Reception {
        code,
        block_symbols: source_block_symbols as int,
        symbol_size: symbol_size as nat,
        sources: optional_bytes(source_symbols),
        repairs: packet_symbols(repair_packets),
    }
}

} // verus!
