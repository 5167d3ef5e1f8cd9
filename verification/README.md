# raptorq_reduced

Decoding of RaptorQ source blocks by dimension reduction, written and verified in Verus.

When few symbols of a block are lost, the symbols that did arrive already fix nearly all
intermediate symbols of the code. `try_reduced_decode` eliminates their equations first, solves a
system with one unknown per lost symbol, and rebuilds the lost symbols from its solution. It returns
`None` where this does not apply or does not succeed, and the caller then solves the whole system.

## What is proved

* The decoder returns a block exactly where the received symbols leave one unknown per lost symbol
  and the repair symbols determine them; the block is the one that every solution of the equations
  gives (`src/reduced.rs`, over the model in `src/reception.rs`).
* If the symbols were encoded from a block, that block is what is returned; success depends on which
  symbols arrived, not on their bytes; and a block whose source symbols are all accounted for is
  recovered whenever the equations have one solution (`src/laws.rs`).
* The order of the repair symbols does not matter, and the decoding is linear in what has arrived
  (`src/laws.rs`, `src/linearity.rs`).
* Eliminating pivot columns keeps what a row says, and what it leaves is unique
  (`src/remainder.rs`).
* Each byte of each symbol stands at its place in the sub-block layout (`src/sub_blocks.rs`).

## Code tables

The parameters of the supported block sizes and the 1024 words of the pseudo-random generator are
passed in as `CodeTables`, which accepts them only if the construction of the code is sound for them.
