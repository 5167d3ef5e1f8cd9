//! The pseudo-random generator of the code.

use crate::systematic_constants::{CodeTables, CodeView};
use vstd::prelude::*;

verus! {

/// The generator's value below `m` for the number `y` and the stream `i`: one word out of each
/// table, picked by the four bytes of `y`.
pub open spec fn random_value(code: CodeView, y: int, i: int, m: int) -> int {
    (code.v0[(y + i) % 256] ^ code.v1[(y / 0x100 + i) % 256] ^ code.v2[(y / 0x1_0000 + i) % 256]
        ^ code.v3[(y / 0x100_0000 + i) % 256]) as int % m
}

/// Computes the generator's value.
pub fn rand(tables: &CodeTables, y: u32, i: u32, m: u32) -> (r: u32)
    requires
        m > 0,
    ensures
        r == random_value(tables@, y as int, i as int, m as int),
        r < m,
{
    let y: u64 = y as u64;
    let i: u64 = i as u64;
    let x0: usize = ((y + i) % 256) as usize;
    let x1: usize = ((y / 0x100 + i) % 256) as usize;
    let x2: usize = ((y / 0x1_0000 + i) % 256) as usize;
    let x3: usize = ((y / 0x100_0000 + i) % 256) as usize;
    let (w0, w1, w2, w3) = tables.words(x0, x1, x2, x3);
    (w0 ^ w1 ^ w2 ^ w3) % m
}

} // verus!
