//! One element of GF(2^8) as a value with operators.

use crate::gf256::{
    gf_alpha, gf_div, gf_double, gf_inverse, gf_mul, gf_select, lemma_inverse, lemma_inverse_unique,
    lemma_mul_units,
};
use vstd::prelude::*;
use vstd::std_specs::ops::{DivSpecImpl, MulSpecImpl};

verus! {

/// An element of the field, held as a byte.
#[derive(Clone, Copy, Debug, PartialEq, Eq, Structural)]
pub struct Octet {
    pub value: u8,
}

/// Multiplication by the generator of the field.
fn double(a: u8) -> (r: u8)
    ensures
        r == gf_double(a),
{
    let high: u8 = if a < 0x80u8 {
        0u8
    } else {
        0x1du8
    };
    (a << 1u8) ^ high
}

/// `a` where bit `i` of `b` is set, zero elsewhere.
fn select(b: u8, i: u8, a: u8) -> (r: u8)
    requires
        i < 8,
    ensures
        r == gf_select(b, i, a),
{
    if (b >> i) & 1u8 == 1u8 {
        a
    } else {
        0u8
    }
}

/// Product of two bytes taken as field elements.
pub fn mul_bytes(a: u8, b: u8) -> (r: u8)
    ensures
        r == gf_mul(a, b),
{
    proof {
        reveal(gf_mul);
    }
    let a1: u8 = double(a);
    let a2: u8 = double(a1);
    let a3: u8 = double(a2);
    let a4: u8 = double(a3);
    let a5: u8 = double(a4);
    let a6: u8 = double(a5);
    let a7: u8 = double(a6);
    select(b, 0, a) ^ select(b, 1, a1) ^ select(b, 2, a2) ^ select(b, 3, a3) ^ select(b, 4, a4)
        ^ select(b, 5, a5) ^ select(b, 6, a6) ^ select(b, 7, a7)
}

/// Inverse of a non-zero byte taken as a field element.
fn invert_byte(a: u8) -> (r: u8)
    requires
        a != 0,
    ensures
        r == gf_inverse(a),
{
    let ghost target = gf_inverse(a);
    proof {
        lemma_inverse(a);
        lemma_mul_units(a);
    }
    let mut b: u8 = 1;
    while mul_bytes(a, b) != 1
        invariant
            a != 0,
            target == gf_inverse(a),
            gf_mul(a, target) == 1,
            1 <= b <= target,
        decreases target - b,
    {
        b = b + 1;
    }
    proof {
        lemma_inverse_unique(a, b);
    }
    b
}

impl Octet {
    /// The element that the byte `value` stands for.
    pub fn new(value: u8) -> (r: Octet)
        ensures
            r.value == value,
    {
        Octet { value }
    }

    /// The neutral element of addition.
    pub fn zero() -> (r: Octet)
        ensures
            r.value == 0,
    {
        Octet { value: 0 }
    }

    /// The neutral element of multiplication.
    pub fn one() -> (r: Octet)
        ensures
            r.value == 1,
    {
        Octet { value: 1 }
    }

    /// The power `i` of the generator.
    pub fn alpha(i: usize) -> (r: Octet)
        ensures
            r.value == gf_alpha(i as nat),
    {
        let mut power: u8 = 1;
        let mut n: usize = 0;
        while n < i
            invariant
                n <= i,
                power == gf_alpha(n as nat),
            decreases i - n,
        {
            power = mul_bytes(2, power);
            n = n + 1;
        }
        Octet { value: power }
    }

    /// The byte that stands for this element.
    pub fn byte(&self) -> (r: u8)
        ensures
            r == self.value,
    {
        self.value
    }
}

impl MulSpecImpl for Octet {
    open spec fn obeys_mul_spec() -> bool {
        true
    }

    open spec fn mul_req(self, rhs: Octet) -> bool {
        true
    }

    open spec fn mul_spec(self, rhs: Octet) -> Octet {
        Octet { value: gf_mul(self.value, rhs.value) }
    }
}

impl core::ops::Mul for Octet {
    type Output = Octet;

    fn mul(self, rhs: Octet) -> (r: Octet) {
        Octet { value: mul_bytes(self.value, rhs.value) }
    }
}

impl DivSpecImpl for Octet {
    open spec fn obeys_div_spec() -> bool {
        true
    }

    open spec fn div_req(self, rhs: Octet) -> bool {
        rhs.value != 0
    }

    open spec fn div_spec(self, rhs: Octet) -> Octet {
        Octet { value: gf_div(self.value, rhs.value) }
    }
}

impl core::ops::Div for Octet {
    type Output = Octet;

    fn div(self, rhs: Octet) -> (r: Octet) {
        Octet { value: mul_bytes(self.value, invert_byte(rhs.value)) }
    }
}

} // verus!
