//! The constants of the code: block parameters and the words of the pseudo-random generator.

use crate::primes::{is_prime, is_prime_u32, lemma_prime_bound};
use vstd::prelude::*;

verus! {

/// The largest number of source symbols in a block.
pub const MAX_SOURCE_SYMBOLS_PER_BLOCK: u32 = 56403;

/// The parameters that belong to one extended block size.
#[derive(Clone, Copy, Debug, PartialEq, Eq, Structural)]
pub struct BlockParameters {
    /// Number of source symbols with padding, `K'`.
    pub kprime: u32,
    /// Systematic index `J`.
    pub systematic_index: u32,
    /// Number of LDPC symbols, `S`.
    pub ldpc_symbols: u32,
    /// Number of HDPC symbols, `H`.
    pub hdpc_symbols: u32,
    /// Number of LT symbols, `W`.
    pub lt_symbols: u32,
}

/// `q` is the smallest prime that is not below `p`.
pub open spec fn is_next_prime(q: int, p: int) -> bool {
    &&& p <= q
    &&& is_prime(q)
    &&& forall|r: int| p <= r < q ==> !#[trigger] is_prime(r)
}

/// The smallest prime that is not below `p`.
pub open spec fn next_prime(p: int) -> int {
    choose|q: int| is_next_prime(q, p)
}

/// There is only one such prime.
pub proof fn lemma_next_prime(q: int, p: int)
    requires
        is_next_prime(q, p),
    ensures
        next_prime(p) == q,
{
    let r = next_prime(p);
    assert(is_next_prime(r, p));
}

impl BlockParameters {
    /// Number of intermediate symbols, `L = K' + S + H`.
    pub open spec fn total(self) -> int {
        self.kprime + self.ldpc_symbols + self.hdpc_symbols
    }

    /// Number of PI symbols, `P = L - W`.
    pub open spec fn pi(self) -> int {
        self.total() - self.lt_symbols
    }

    /// Number of LT symbols that are not LDPC symbols, `B = W - S`.
    pub open spec fn plain_lt(self) -> int {
        self.lt_symbols - self.ldpc_symbols
    }

    /// The smallest prime that is not below `P`.
    pub open spec fn p1(self) -> int {
        next_prime(self.pi())
    }

    /// What the construction of the code needs of its parameters: `S` and `W` are primes, there are
    /// at least two HDPC and three PI symbols, and the three rows that a column of the LDPC part
    /// meets are distinct.
    pub open spec fn valid(self) -> bool {
        &&& 1 <= self.kprime <= MAX_SOURCE_SYMBOLS_PER_BLOCK
        &&& self.systematic_index < 0x1_0000
        &&& 3 <= self.ldpc_symbols
        &&& is_prime(self.ldpc_symbols as int)
        &&& 2 <= self.hdpc_symbols
        &&& is_prime(self.lt_symbols as int)
        &&& self.total() < 0x1_0000
        &&& self.ldpc_symbols < self.lt_symbols
        &&& self.pi() >= 3
        &&& self.plain_lt() <= self.ldpc_symbols * (self.ldpc_symbols - 1)
    }

    /// Decides whether the parameters are valid.
    pub fn is_valid(&self) -> (r: bool)
        ensures
            r == self.valid(),
    {
        if self.kprime < 1 || self.kprime > MAX_SOURCE_SYMBOLS_PER_BLOCK || self.systematic_index
            >= 0x1_0000 || self.ldpc_symbols < 3 || self.ldpc_symbols >= 0x1_0000
            || self.hdpc_symbols < 2 || self.hdpc_symbols >= 0x1_0000 || self.lt_symbols
            >= 0x1_0000 || self.ldpc_symbols >= self.lt_symbols {
            return false;
        }
        let total: u32 = self.kprime + self.ldpc_symbols + self.hdpc_symbols;
        if total >= 0x1_0000 || self.lt_symbols + 3 > total {
            return false;
        }
        let s: u64 = self.ldpc_symbols as u64;
        assert(s * (s - 1) <= 0x1_0000 * 0x1_0000) by (nonlinear_arith)
            requires
                3 <= s < 0x1_0000,
        ;
        (self.lt_symbols - self.ldpc_symbols) as u64 <= s * (s - 1) && is_prime_u32(
            self.ldpc_symbols,
        ) && is_prime_u32(self.lt_symbols)
    }

    /// Number of intermediate symbols, `L`.
    pub fn num_intermediate_symbols(&self) -> (r: u32)
        requires
            self.valid(),
        ensures
            r == self.total(),
    {
        self.kprime + self.ldpc_symbols + self.hdpc_symbols
    }

    /// Number of PI symbols, `P`.
    pub fn num_pi_symbols(&self) -> (r: u32)
        requires
            self.valid(),
        ensures
            r == self.pi(),
    {
        self.num_intermediate_symbols() - self.lt_symbols
    }

    /// The smallest prime that is not below `P`.
    pub fn calculate_p1(&self) -> (r: u32)
        requires
            self.valid(),
        ensures
            r == self.p1(),
            is_next_prime(r as int, self.pi()),
            r <= 65537,
    {
        let p: u32 = self.num_pi_symbols();
        let mut q: u32 = p;
        proof {
            lemma_prime_bound();
        }
        while !is_prime_u32(q)
            invariant
                p <= q <= 65537,
                is_prime(65537),
                forall|r: int| p <= r < q ==> !#[trigger] is_prime(r),
            decreases 65537 - q,
        {
            q = q + 1;
        }
        proof {
            lemma_next_prime(q as int, p as int);
        }
        q
    }
}

/// Facts about the prime that belongs to valid parameters.
pub proof fn lemma_p1(params: BlockParameters)
    requires
        params.valid(),
    ensures
        is_next_prime(params.p1(), params.pi()),
        is_prime(params.p1()),
        3 <= params.pi() <= params.p1() <= 65537,
{
    lemma_prime_bound();
    let q = lemma_least_prime(params.pi(), 65537);
    lemma_next_prime(q, params.pi());
}

proof fn lemma_least_prime(p: int, bound: int) -> (q: int)
    requires
        p <= bound,
        is_prime(bound),
    ensures
        is_next_prime(q, p),
        q <= bound,
    decreases bound - p,
{
    if is_prime(p) {
        p
    } else {
        let q = lemma_least_prime(p + 1, bound);
        assert forall|r: int| p <= r < q implies !#[trigger] is_prime(r) by {}
        q
    }
}

/// The constants as a mathematical value: the supported block sizes in increasing order, and the
/// four tables of the generator.
pub struct CodeView {
    pub blocks: Seq<BlockParameters>,
    pub v0: Seq<u32>,
    pub v1: Seq<u32>,
    pub v2: Seq<u32>,
    pub v3: Seq<u32>,
}

impl CodeView {
    /// Block sizes increase and their parameters are valid; each table has 256 words.
    pub open spec fn valid(self) -> bool {
        &&& self.blocks.len() > 0
        &&& forall|i: int| 0 <= i < self.blocks.len() ==> (#[trigger] self.blocks[i]).valid()
        &&& forall|i: int, j: int|
            0 <= i < j < self.blocks.len() ==> (#[trigger] self.blocks[i]).kprime < (
            #[trigger] self.blocks[j]).kprime
        &&& self.v0.len() == 256
        &&& self.v1.len() == 256
        &&& self.v2.len() == 256
        &&& self.v3.len() == 256
    }

    /// The largest number of source symbols that is supported.
    pub open spec fn capacity(self) -> int {
        self.blocks.last().kprime as int
    }

    /// Entry `i` is the first that can hold `k` source symbols.
    pub open spec fn fits_first(self, i: int, k: int) -> bool {
        &&& 0 <= i < self.blocks.len()
        &&& k <= self.blocks[i].kprime
        &&& forall|j: int| 0 <= j < i ==> (#[trigger] self.blocks[j]).kprime < k
    }

    /// The parameters of the smallest supported block with at least `k` source symbols.
    pub open spec fn parameters(self, k: int) -> BlockParameters {
        self.blocks[choose|i: int| self.fits_first(i, k)]
    }
}

/// There is only one first entry.
pub proof fn lemma_parameters(code: CodeView, i: int, k: int)
    requires
        code.fits_first(i, k),
    ensures
        code.parameters(k) == code.blocks[i],
{
    let j = choose|j: int| code.fits_first(j, k);
    assert(code.fits_first(j, k));
    if j < i {
        assert(code.blocks[j].kprime < k);
    }
    if i < j {
        assert(code.blocks[i].kprime < k);
    }
}

pub proof fn lemma_fits(code: CodeView, k: int, i: int) -> (r: int)
    requires
        code.valid(),
        k <= code.capacity(),
        0 <= i < code.blocks.len(),
        forall|j: int| 0 <= j < i ==> (#[trigger] code.blocks[j]).kprime < k,
    ensures
        code.fits_first(r, k),
    decreases code.blocks.len() - i,
{
    if k <= code.blocks[i].kprime {
        i
    } else {
        assert(i != code.blocks.len() - 1);
        lemma_fits(code, k, i + 1)
    }
}

/// A block of a supported size has valid parameters that can hold it.
pub proof fn lemma_parameters_valid(code: CodeView, k: int)
    requires
        code.valid(),
        k <= code.capacity(),
    ensures
        code.parameters(k).valid(),
        k <= code.parameters(k).kprime,
{
    let i = lemma_fits(code, k, 0);
    lemma_parameters(code, i, k);
}

/// The constants of the code.
///
/// Values of this type are valid by construction.
#[derive(Debug)]
pub struct CodeTables {
    blocks: Vec<BlockParameters>,
    v0: Vec<u32>,
    v1: Vec<u32>,
    v2: Vec<u32>,
    v3: Vec<u32>,
}

impl View for CodeTables {
    type V = CodeView;

    closed spec fn view(&self) -> CodeView {
        CodeView {
            blocks: self.blocks@,
            v0: self.v0@,
            v1: self.v1@,
            v2: self.v2@,
            v3: self.v3@,
        }
    }
}

impl CodeTables {
    #[verifier::type_invariant]
    spec fn inv(self) -> bool {
        self@.valid()
    }

    /// Checks the constants; `None` where they are not valid.
    pub fn new(
        blocks: Vec<BlockParameters>,
        v0: Vec<u32>,
        v1: Vec<u32>,
        v2: Vec<u32>,
        v3: Vec<u32>,
    ) -> (r: Option<CodeTables>)
        ensures
            ({
                let code = CodeView {
                    blocks: blocks@,
                    v0: v0@,
                    v1: v1@,
                    v2: v2@,
                    v3: v3@,
                };
                &&& r is Some <==> code.valid()
                &&& r matches Some(tables) ==> tables@ == code
            }),
    {
        if blocks.len() == 0 || v0.len() != 256 || v1.len() != 256 || v2.len() != 256 || v3.len()
            != 256 {
            return None;
        }
        let mut i: usize = 0;
        while i < blocks.len()
            invariant
                i <= blocks@.len(),
                forall|k: int| 0 <= k < i ==> (#[trigger] blocks@[k]).valid(),
                forall|k: int, l: int|
                    0 <= k < l < i ==> (#[trigger] blocks@[k]).kprime < (
                    #[trigger] blocks@[l]).kprime,
            decreases blocks@.len() - i,
        {
            if !blocks[i].is_valid() {
                return None;
            }
            if i > 0 && blocks[i - 1].kprime >= blocks[i].kprime {
                return None;
            }
            i = i + 1;
        }
        Some(CodeTables { blocks, v0, v1, v2, v3 })
    }

    /// The largest number of source symbols that is supported.
    pub fn max_source_symbols(&self) -> (r: u32)
        ensures
            r == self@.capacity(),
            self@.valid(),
    {
        proof {
            use_type_invariant(self);
        }
        self.blocks[self.blocks.len() - 1].kprime
    }

    /// The parameters of the smallest supported block with at least `k` source symbols.
    pub fn block_parameters(&self, k: u32) -> (r: BlockParameters)
        requires
            k <= self@.capacity(),
        ensures
            r == self@.parameters(k as int),
            r.valid(),
            k <= r.kprime,
            self@.valid(),
    {
        proof {
            use_type_invariant(self);
        }
        let n: usize = self.blocks.len();
        let mut i: usize = 0;
        while self.blocks[i].kprime < k
            invariant
                self@.valid(),
                k <= self@.capacity(),
                n == self.blocks@.len(),
                i < n,
                forall|j: int| 0 <= j < i ==> (#[trigger] self.blocks@[j]).kprime < k,
            decreases n - i,
        {
            i = i + 1;
        }
        proof {
            assert(self@.fits_first(i as int, k as int));
            lemma_parameters(self@, i as int, k as int);
        }
        self.blocks[i]
    }

    /// The words that the four tables hold at the given positions.
    pub(crate) fn words(&self, x0: usize, x1: usize, x2: usize, x3: usize) -> (r: (
        u32,
        u32,
        u32,
        u32,
    ))
        requires
            x0 < 256,
            x1 < 256,
            x2 < 256,
            x3 < 256,
        ensures
            r.0 == self@.v0[x0 as int],
            r.1 == self@.v1[x1 as int],
            r.2 == self@.v2[x2 as int],
            r.3 == self@.v3[x3 as int],
    {
        proof {
            use_type_invariant(self);
        }
        (self.v0[x0], self.v1[x1], self.v2[x2], self.v3[x3])
    }
}

} // verus!
