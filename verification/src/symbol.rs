//! Symbols: the byte strings that the code combines, position by position, over GF(2^8).

use crate::gf256::{gf_mul, lemma_mul_units};
use crate::octet::{mul_bytes, Octet};
use vstd::prelude::*;

verus! {

/// A symbol, viewed as the sequence of its bytes.
#[derive(Debug)]
pub struct Symbol {
    value: Vec<u8>,
}

/// The symbol of `size` zero bytes.
pub open spec fn zero_bytes(size: nat) -> Seq<u8> {
    Seq::new(size, |t: int| 0u8)
}

/// The symbol `a + scalar * b`.
pub open spec fn add_scaled(a: Seq<u8>, b: Seq<u8>, scalar: u8) -> Seq<u8> {
    Seq::new(a.len(), |t: int| a[t] ^ gf_mul(scalar, b[t]))
}

/// The symbol `scalar * a`.
pub open spec fn scaled(a: Seq<u8>, scalar: u8) -> Seq<u8> {
    Seq::new(a.len(), |t: int| gf_mul(scalar, a[t]))
}

impl View for Symbol {
    type V = Seq<u8>;

    closed spec fn view(&self) -> Seq<u8> {
        self.value@
    }
}

impl Clone for Symbol {
    fn clone(&self) -> (r: Symbol)
        ensures
            r@ == self@,
    {
        let mut value: Vec<u8> = Vec::with_capacity(self.value.len());
        value.extend_from_slice(self.value.as_slice());
        proof {
            assert(value@ =~= self.value@);
        }
        Symbol { value }
    }
}

impl Symbol {
    /// The symbol with the bytes `value`.
    pub fn new(value: Vec<u8>) -> (r: Symbol)
        ensures
            r@ == value@,
    {
        Symbol { value }
    }

    /// The symbol of `size` zero bytes.
    pub fn zero(size: usize) -> (r: Symbol)
        ensures
            r@ == zero_bytes(size as nat),
    {
        let value: Vec<u8> = vec![0u8; size];
        proof {
            assert(value@ =~= zero_bytes(size as nat));
        }
        Symbol { value }
    }

    /// The number of bytes.
    pub fn len(&self) -> (r: usize)
        ensures
            r == self@.len(),
    {
        self.value.len()
    }

    /// The bytes of the symbol.
    pub fn as_bytes(&self) -> (r: &[u8])
        ensures
            r@ == self@,
    {
        self.value.as_slice()
    }

    /// Adds `other` to this symbol.
    pub fn add_assign(&mut self, other: &Symbol)
        requires
            old(self)@.len() == other@.len(),
        ensures
            final(self)@ == add_scaled(old(self)@, other@, 1),
    {
        let ghost before = self.value@;
        let size: usize = self.value.len();
        let mut t: usize = 0;
        while t < size
            invariant
                t <= size,
                size == before.len(),
                size == other.value@.len(),
                self.value@.len() == size,
                forall|u: int| 0 <= u < t ==> self.value@[u] == before[u] ^ other.value@[u],
                forall|u: int| t <= u < size ==> self.value@[u] == before[u],
            decreases size - t,
        {
            let sum: u8 = self.value[t] ^ other.value[t];
            self.value[t] = sum;
            t = t + 1;
        }
        proof {
            assert forall|u: int| 0 <= u < size implies self.value@[u] == add_scaled(
                before,
                other@,
                1,
            )[u] by {
                lemma_mul_units(other@[u]);
            }
            assert(self.value@ =~= add_scaled(before, other@, 1));
        }
    }

    /// Multiplies this symbol by `scalar`.
    pub fn mulassign_scalar(&mut self, scalar: &Octet)
        ensures
            final(self)@ == scaled(old(self)@, scalar.value),
    {
        let ghost before = self.value@;
        let size: usize = self.value.len();
        let mut t: usize = 0;
        while t < size
            invariant
                t <= size,
                size == before.len(),
                self.value@.len() == size,
                forall|u: int|
                    0 <= u < t ==> self.value@[u] == gf_mul(scalar.value, before[u]),
                forall|u: int| t <= u < size ==> self.value@[u] == before[u],
            decreases size - t,
        {
            let product: u8 = mul_bytes(scalar.value, self.value[t]);
            self.value[t] = product;
            t = t + 1;
        }
        proof {
            assert(self.value@ =~= scaled(before, scalar.value));
        }
    }

    /// Adds `scalar * other` to this symbol.
    pub fn fused_addassign_mul_scalar(&mut self, other: &Symbol, scalar: &Octet)
        requires
            old(self)@.len() == other@.len(),
        ensures
            final(self)@ == add_scaled(old(self)@, other@, scalar.value),
    {
        let ghost before = self.value@;
        let size: usize = self.value.len();
        let mut t: usize = 0;
        while t < size
            invariant
                t <= size,
                size == before.len(),
                size == other.value@.len(),
                self.value@.len() == size,
                forall|u: int|
                    0 <= u < t ==> self.value@[u] == before[u] ^ gf_mul(
                        scalar.value,
                        other.value@[u],
                    ),
                forall|u: int| t <= u < size ==> self.value@[u] == before[u],
            decreases size - t,
        {
            let sum: u8 = self.value[t] ^ mul_bytes(scalar.value, other.value[t]);
            self.value[t] = sum;
            t = t + 1;
        }
        proof {
            assert(self.value@ =~= add_scaled(before, other@, scalar.value));
        }
    }
}

} // verus!
