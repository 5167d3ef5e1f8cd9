//! Arithmetic in GF(2^8), the field that the code works over.
//!
//! Bytes stand for polynomials over GF(2) modulo `x^8 + x^4 + x^3 + x^2 + 1`. Addition is
//! exclusive or; the rest of the field structure is defined and proved here.

use vstd::prelude::*;

verus! {

/// Multiplication by the generator `x` of the field.
pub open spec fn gf_double(a: u8) -> u8 {
    (a << 1u8) ^ (if a < 0x80u8 { 0u8 } else { 0x1du8 })
}

/// `a` where bit `i` of `b` is set, zero elsewhere.
pub open spec fn gf_select(b: u8, i: u8, a: u8) -> u8 {
    if (b >> i) & 1u8 == 1u8 {
        a
    } else {
        0u8
    }
}

/// Product in the field: the sum of `a * x^i` over the set bits `i` of `b`.
#[verifier::opaque]
pub open spec fn gf_mul(a: u8, b: u8) -> u8 {
    let a1 = gf_double(a);
    let a2 = gf_double(a1);
    let a3 = gf_double(a2);
    let a4 = gf_double(a3);
    let a5 = gf_double(a4);
    let a6 = gf_double(a5);
    let a7 = gf_double(a6);
    gf_select(b, 0, a) ^ gf_select(b, 1, a1) ^ gf_select(b, 2, a2) ^ gf_select(b, 3, a3)
        ^ gf_select(b, 4, a4) ^ gf_select(b, 5, a5) ^ gf_select(b, 6, a6) ^ gf_select(b, 7, a7)
}

/// The square, written out as the linear map that it is in characteristic two.
spec fn gf_square(a: u8) -> u8 {
    gf_select(a, 0, 0x01) ^ gf_select(a, 1, 0x04) ^ gf_select(a, 2, 0x10) ^ gf_select(a, 3, 0x40)
        ^ gf_select(a, 4, 0x1d) ^ gf_select(a, 5, 0x74) ^ gf_select(a, 6, 0xcd) ^ gf_select(
        a,
        7,
        0x13,
    )
}

/// The multiplicative inverse of a non-zero element.
pub open spec fn gf_inverse(a: u8) -> u8 {
    choose|b: u8| #[trigger] gf_mul(a, b) == 1
}

/// Quotient in the field.
pub open spec fn gf_div(a: u8, b: u8) -> u8 {
    gf_mul(a, gf_inverse(b))
}

/// The power `x^i` of the generator.
pub open spec fn gf_alpha(i: nat) -> u8
    decreases i,
{
    if i == 0 {
        1
    } else {
        gf_mul(2, gf_alpha((i - 1) as nat))
    }
}

/// Addition is commutative and associative, every element is its own negative.
pub proof fn lemma_xor(a: u8, b: u8, c: u8)
    ensures
        a ^ b == b ^ a,
        (a ^ b) ^ c == a ^ (b ^ c),
        a ^ a == 0,
        a ^ 0 == a,
        0 ^ a == a,
        (a ^ b) ^ b == a,
        a ^ b == 0 ==> a == b,
{
    assert(a ^ b == b ^ a) by (bit_vector);
    assert((a ^ b) ^ c == a ^ (b ^ c)) by (bit_vector);
    assert(a ^ a == 0) by (bit_vector);
    assert(a ^ 0 == a) by (bit_vector);
    assert(0 ^ a == a) by (bit_vector);
    assert((a ^ b) ^ b == a) by (bit_vector);
    assert(a ^ b == 0 ==> a == b) by (bit_vector);
}

/// The inner terms of a sum of two sums can be exchanged.
pub proof fn lemma_xor_exchange(a: u8, b: u8, c: u8, d: u8)
    ensures
        (a ^ b) ^ (c ^ d) == (a ^ c) ^ (b ^ d),
{
    assert((a ^ b) ^ (c ^ d) == (a ^ c) ^ (b ^ d)) by (bit_vector);
}

/// Zero and one behave as in every ring.
pub proof fn lemma_mul_units(a: u8)
    ensures
        gf_mul(a, 0) == 0,
        gf_mul(0, a) == 0,
        gf_mul(a, 1) == a,
        gf_mul(1, a) == a,
{
    reveal(gf_mul);
    assert(gf_mul(a, 0) == 0) by (bit_vector);
    assert(gf_mul(0, a) == 0) by (bit_vector);
    assert(gf_mul(a, 1) == a) by (bit_vector);
    assert(gf_mul(1, a) == a) by (bit_vector);
}

/// Multiplication is commutative.
#[verifier::rlimit(80)]
#[verifier::spinoff_prover]
pub proof fn lemma_mul_commutative(a: u8, b: u8)
    ensures
        gf_mul(a, b) == gf_mul(b, a),
{
    reveal(gf_mul);
    assert(gf_mul(a, b) == gf_mul(b, a)) by (bit_vector);
}

/// Multiplication distributes over addition.
pub proof fn lemma_mul_distributive(a: u8, b: u8, c: u8)
    ensures
        gf_mul(a, b ^ c) == gf_mul(a, b) ^ gf_mul(a, c),
        gf_mul(b ^ c, a) == gf_mul(b, a) ^ gf_mul(c, a),
{
    reveal(gf_mul);
    let a1 = gf_double(a);
    let a2 = gf_double(a1);
    let a3 = gf_double(a2);
    let a4 = gf_double(a3);
    let a5 = gf_double(a4);
    let a6 = gf_double(a5);
    let a7 = gf_double(a6);
    let d = b ^ c;
    assert(gf_select(d, 0, a) ^ gf_select(d, 1, a1) ^ gf_select(d, 2, a2) ^ gf_select(d, 3, a3)
        ^ gf_select(d, 4, a4) ^ gf_select(d, 5, a5) ^ gf_select(d, 6, a6) ^ gf_select(d, 7, a7) == (
    gf_select(b, 0, a) ^ gf_select(b, 1, a1) ^ gf_select(b, 2, a2) ^ gf_select(b, 3, a3)
        ^ gf_select(b, 4, a4) ^ gf_select(b, 5, a5) ^ gf_select(b, 6, a6) ^ gf_select(b, 7, a7)) ^ (
    gf_select(c, 0, a) ^ gf_select(c, 1, a1) ^ gf_select(c, 2, a2) ^ gf_select(c, 3, a3)
        ^ gf_select(c, 4, a4) ^ gf_select(c, 5, a5) ^ gf_select(c, 6, a6) ^ gf_select(c, 7, a7)))
        by (bit_vector)
        requires
            d == b ^ c,
    ;
    lemma_mul_commutative(a, b ^ c);
    lemma_mul_commutative(a, b);
    lemma_mul_commutative(a, c);
}

/// Doubling is multiplication by the generator, and moves through a product.
#[verifier::rlimit(80)]
#[verifier::spinoff_prover]
pub proof fn lemma_double(a: u8, b: u8)
    ensures
        gf_mul(gf_double(a), b) == gf_double(gf_mul(a, b)),
{
    reveal(gf_mul);
    let d = gf_double(a);
    let m = gf_mul(a, b);
    assert(gf_mul(d, b) == gf_double(m)) by (bit_vector)
        requires
            d == gf_double(a),
            m == gf_mul(a, b),
    ;
}

proof fn lemma_double_right(a: u8, b: u8)
    ensures
        gf_mul(a, gf_double(b)) == gf_double(gf_mul(a, b)),
{
    lemma_double(b, a);
    lemma_mul_commutative(a, b);
    lemma_mul_commutative(a, gf_double(b));
}

/// Multiplication is associative.
pub proof fn lemma_mul_associative(a: u8, b: u8, c: u8)
    ensures
        gf_mul(gf_mul(a, b), c) == gf_mul(a, gf_mul(b, c)),
{
    let b1 = gf_double(b);
    let b2 = gf_double(b1);
    let b3 = gf_double(b2);
    let b4 = gf_double(b3);
    let b5 = gf_double(b4);
    let b6 = gf_double(b5);
    let b7 = gf_double(b6);
    lemma_double_right(a, b);
    lemma_double_right(a, b1);
    lemma_double_right(a, b2);
    lemma_double_right(a, b3);
    lemma_double_right(a, b4);
    lemma_double_right(a, b5);
    lemma_double_right(a, b6);
    let s0 = gf_select(c, 0, b);
    let s1 = gf_select(c, 1, b1);
    let s2 = gf_select(c, 2, b2);
    let s3 = gf_select(c, 3, b3);
    let s4 = gf_select(c, 4, b4);
    let s5 = gf_select(c, 5, b5);
    let s6 = gf_select(c, 6, b6);
    let s7 = gf_select(c, 7, b7);
    lemma_mul_distributive(a, s0, s1);
    lemma_mul_distributive(a, s0 ^ s1, s2);
    lemma_mul_distributive(a, s0 ^ s1 ^ s2, s3);
    lemma_mul_distributive(a, s0 ^ s1 ^ s2 ^ s3, s4);
    lemma_mul_distributive(a, s0 ^ s1 ^ s2 ^ s3 ^ s4, s5);
    lemma_mul_distributive(a, s0 ^ s1 ^ s2 ^ s3 ^ s4 ^ s5, s6);
    lemma_mul_distributive(a, s0 ^ s1 ^ s2 ^ s3 ^ s4 ^ s5 ^ s6, s7);
    lemma_mul_units(a);
    assert(gf_mul(b, c) == s0 ^ s1 ^ s2 ^ s3 ^ s4 ^ s5 ^ s6 ^ s7) by {
        reveal(gf_mul);
    }
    let m = gf_mul(a, b);
    let m1 = gf_double(m);
    let m2 = gf_double(m1);
    let m3 = gf_double(m2);
    let m4 = gf_double(m3);
    let m5 = gf_double(m4);
    let m6 = gf_double(m5);
    let m7 = gf_double(m6);
    assert(gf_mul(m, c) == gf_select(c, 0, m) ^ gf_select(c, 1, m1) ^ gf_select(c, 2, m2)
        ^ gf_select(c, 3, m3) ^ gf_select(c, 4, m4) ^ gf_select(c, 5, m5) ^ gf_select(c, 6, m6)
        ^ gf_select(c, 7, m7)) by {
        reveal(gf_mul);
    }
}

#[verifier::rlimit(100)]
#[verifier::spinoff_prover]
proof fn lemma_inverse_exists(a: u8)
    requires
        a != 0,
    ensures
        exists|b: u8| #[trigger] gf_mul(a, b) == 1,
{
    reveal(gf_mul);
    let a2 = gf_square(a);
    let a3 = gf_mul(a2, a);
    let a6 = gf_square(a3);
    let a7 = gf_mul(a6, a);
    let a12 = gf_square(a6);
    let a15 = gf_mul(a12, a3);
    let a30 = gf_square(a15);
    let a60 = gf_square(a30);
    let a120 = gf_square(a60);
    let a127 = gf_mul(a120, a7);
    let a254 = gf_square(a127);
    assert(gf_mul(a, a254) == 1) by (bit_vector)
        requires
            a != 0,
            a2 == gf_square(a),
            a3 == gf_mul(a2, a),
            a6 == gf_square(a3),
            a7 == gf_mul(a6, a),
            a12 == gf_square(a6),
            a15 == gf_mul(a12, a3),
            a30 == gf_square(a15),
            a60 == gf_square(a30),
            a120 == gf_square(a60),
            a127 == gf_mul(a120, a7),
            a254 == gf_square(a127),
    ;
}

/// A non-zero element times its inverse is one.
pub proof fn lemma_inverse(a: u8)
    requires
        a != 0,
    ensures
        gf_mul(a, gf_inverse(a)) == 1,
        gf_mul(gf_inverse(a), a) == 1,
        gf_inverse(a) != 0,
{
    lemma_inverse_exists(a);
    lemma_mul_commutative(a, gf_inverse(a));
    lemma_mul_units(a);
}

/// No other element has the property of the inverse.
pub proof fn lemma_inverse_unique(a: u8, b: u8)
    requires
        a != 0,
        gf_mul(a, b) == 1,
    ensures
        b == gf_inverse(a),
{
    let i = gf_inverse(a);
    lemma_inverse(a);
    lemma_mul_associative(i, a, b);
    lemma_mul_units(i);
    lemma_mul_units(b);
}

/// A product is zero only where a factor is.
pub proof fn lemma_no_zero_divisors(a: u8, b: u8)
    ensures
        gf_mul(a, b) == 0 <==> a == 0 || b == 0,
{
    lemma_mul_units(a);
    lemma_mul_units(b);
    if a != 0 && gf_mul(a, b) == 0 {
        let i = gf_inverse(a);
        lemma_inverse(a);
        lemma_mul_associative(i, a, b);
        lemma_mul_units(i);
    }
}

/// Dividing undoes multiplying.
pub proof fn lemma_div(a: u8, b: u8)
    requires
        b != 0,
    ensures
        gf_mul(gf_div(a, b), b) == a,
        gf_div(gf_mul(a, b), b) == a,
        gf_div(b, 1) == b,
        a != 0 ==> gf_div(a, b) != 0,
{
    let i = gf_inverse(b);
    lemma_inverse(b);
    lemma_inverse(1);
    lemma_mul_units(gf_inverse(1));
    lemma_mul_associative(a, i, b);
    lemma_mul_associative(a, b, i);
    lemma_mul_units(a);
    lemma_mul_units(b);
    lemma_no_zero_divisors(a, i);
}

} // verus!
