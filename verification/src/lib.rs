//! Decoding of RaptorQ source blocks by dimension reduction.
//!
//! A source block of `K` symbols is encoded through `L` intermediate symbols, which are linked by
//! linear equations over GF(2^8). A receiver that has lost a few source symbols usually solves for
//! all `L` of them. Here the equations of the symbols that did arrive are eliminated first, which
//! leaves one free intermediate symbol for each lost source symbol; the repair symbols then give a
//! small system for the free ones, and the lost symbols are rebuilt from its solution.
//!
//! [`reduced::try_reduced_decode`] is the decoder. What it returns is stated over
//! [`reception::Reception`], the model of what has arrived, and [`laws`] and [`linearity`] relate
//! that model to the block that was sent. [`reception_laws`] and [`code_laws`] say in plain
//! arithmetic what the model and the code are.
//!
//! * [`gf256`], [`octet`] and [`symbol`]: the field, its elements and strings of them;
//! * [`linear`], [`echelon`] and [`rank`]: systems of linear equations;
//! * [`sparse_row`], [`elimination`], [`remainder`], [`reduced_system`] and [`reduction`]: sparse
//!   rows and their solution;
//! * [`systematic_constants`], [`rng`], [`primes`], [`base`] and [`constraint_matrix`]: the code;
//! * [`sub_blocks`]: the layout of a decoded block.
//!
//! The numbers that define a code, which are the parameters of the supported block sizes and the
//! words of the pseudo-random generator, are data: [`systematic_constants::CodeTables`] checks and
//! holds them.

use vstd::prelude::*;

pub mod base;
pub mod code_laws;
pub mod constraint_matrix;
pub mod echelon;
pub mod elimination;
pub mod gf256;
pub mod laws;
pub mod linear;
pub mod linearity;
pub mod octet;
pub mod primes;
pub mod rank;
pub mod reception;
pub mod reception_laws;
pub mod reduced;
pub mod reduced_system;
pub mod reduction;
pub mod remainder;
pub mod rng;
pub mod sparse_row;
pub mod sub_blocks;
pub mod symbol;
pub mod systematic_constants;

verus! {

} // verus!
