//! Primes, and arithmetic progressions modulo a prime.

use vstd::arithmetic::div_mod::{
    lemma_add_mod_noop, lemma_fundamental_div_mod, lemma_fundamental_div_mod_converse,
    lemma_mod_bound, lemma_mod_multiples_vanish, lemma_small_mod,
};
use vstd::prelude::*;

verus! {

/// `n` is at least two and has no divisor between one and itself.
pub open spec fn is_prime(n: int) -> bool {
    n >= 2 && forall|d: int| 2 <= d < n ==> #[trigger] (n % d) != 0
}

/// The value after `k` steps of width `a` from `b`, modulo `m`.
pub open spec fn stepped(b: int, a: int, m: int, k: int) -> int {
    (b + k * a) % m
}

/// A number with a divisor has one whose square does not exceed it.
proof fn lemma_small_divisor(n: int, d: int) -> (e: int)
    requires
        2 <= d < n,
        n % d == 0,
    ensures
        2 <= e < n,
        n % e == 0,
        e * e <= n,
{
    let q = n / d;
    lemma_fundamental_div_mod(n, d);
    assert(n == d * q);
    if d * d <= n {
        d
    } else {
        assert(q < d) by (nonlinear_arith)
            requires
                n == d * q,
                d * d > n,
                d >= 2,
        ;
        assert(q >= 2) by (nonlinear_arith)
            requires
                n == d * q,
                2 <= d < n,
        ;
        assert(q * q <= n) by (nonlinear_arith)
            requires
                n == d * q,
                2 <= q < d,
        ;
        assert(q < n) by (nonlinear_arith)
            requires
                n == d * q,
                q >= 2,
                d >= 2,
        ;
        lemma_fundamental_div_mod_converse(n, q, d, 0);
        q
    }
}

/// Decides whether `n` is prime, by trial division.
pub fn is_prime_u32(n: u32) -> (r: bool)
    ensures
        r == is_prime(n as int),
{
    if n < 2 {
        return false;
    }
    let mut d: u32 = 2;
    let mut square: u64 = 4;
    while square <= n as u64
        invariant
            2 <= d <= 0x1_0000,
            n >= 2,
            square == d * d,
            forall|e: int| 2 <= e < d ==> #[trigger] (n as int % e) != 0,
        decreases 0x1_0000 - d,
    {
        assert(d < 0x1_0000) by (nonlinear_arith)
            requires
                d * d <= n,
                n <= u32::MAX,
        ;
        if n % d == 0 {
            assert(d < n) by (nonlinear_arith)
                requires
                    d * d <= n,
                    d >= 2,
            ;
            assert(n as int % d as int == 0);
            return false;
        }
        assert(n as int % d as int != 0);
        assert((d + 1) * (d + 1) == d * d + 2 * d + 1) by (nonlinear_arith);
        square = square + 2 * (d as u64) + 1;
        d = d + 1;
    }
    proof {
        assert forall|e: int| 2 <= e < n implies #[trigger] (n as int % e) != 0 by {
            if n as int % e == 0 {
                let s = lemma_small_divisor(n as int, e);
                assert(s < d) by (nonlinear_arith)
                    requires
                        s * s <= n,
                        d * d > n,
                        s >= 2,
                        d >= 2,
                ;
                assert(n as int % s != 0);
            }
        }
    }
    true
}

/// A prime that bounds the search for the next prime.
pub proof fn lemma_prime_bound()
    ensures
        is_prime(65537),
{
    assert forall|d: int| 2 <= d < 65537 implies #[trigger] (65537int % d) != 0 by {
        let e = d as u32;
        assert(65537u32 % e != 0) by (bit_vector)
            requires
                2 <= e < 65537,
        ;
    }
}

/// Below a prime every positive number has an inverse modulo the prime.
proof fn lemma_inverse_modulo(m: int, a: int) -> (r: (int, int))
    requires
        is_prime(m),
        0 < a < m,
    ensures
        r.0 * a == 1 + r.1 * m,
    decreases a,
{
    if a == 1 {
        (1, 0)
    } else {
        let q = m / a;
        let b = m % a;
        lemma_fundamental_div_mod(m, a);
        lemma_mod_bound(m, a);
        let (y, z) = lemma_inverse_modulo(m, b);
        assert((-y * q) * a == 1 + (z - y) * m) by (nonlinear_arith)
            requires
                y * b == 1 + z * m,
                m == a * q + b,
        ;
        (-y * q, z - y)
    }
}

/// Fewer than `m` steps do not return to the start.
pub proof fn lemma_steps_distinct(b: int, a: int, m: int, i: int, j: int)
    requires
        is_prime(m),
        0 < a < m,
        i < j < i + m,
    ensures
        stepped(b, a, m, i) != stepped(b, a, m, j),
{
    if stepped(b, a, m, i) == stepped(b, a, m, j) {
        let x = b + i * a;
        let y = b + j * a;
        lemma_fundamental_div_mod(x, m);
        lemma_fundamental_div_mod(y, m);
        let t = y / m - x / m;
        let k = j - i;
        assert(k * a == m * t) by (nonlinear_arith)
            requires
                x == b + i * a,
                y == b + j * a,
                k == j - i,
                x == m * (x / m) + x % m,
                y == m * (y / m) + y % m,
                x % m == y % m,
                t == y / m - x / m,
        ;
        let (u, w) = lemma_inverse_modulo(m, a);
        let z = u * t - k * w;
        assert(k == m * z) by (nonlinear_arith)
            requires
                k * a == m * t,
                u * a == 1 + w * m,
                z == u * t - k * w,
        ;
        assert(false) by (nonlinear_arith)
            requires
                k == m * z,
                0 < k < m,
        ;
    }
}

/// Every residue is reached within `m` steps from any point on.
pub proof fn lemma_steps_reach(b: int, a: int, m: int, from: int, r: int) -> (k: int)
    requires
        is_prime(m),
        0 < a < m,
        0 <= r < m,
    ensures
        from <= k < from + m,
        stepped(b, a, m, k) == r,
{
    let (u, w) = lemma_inverse_modulo(m, a);
    let x = (r - b) * u - from;
    let s = x % m;
    lemma_fundamental_div_mod(x, m);
    lemma_mod_bound(x, m);
    let k = from + s;
    let t = (r - b) * w - (x / m) * a;
    assert(b + k * a == r + t * m) by (nonlinear_arith)
        requires
            u * a == 1 + w * m,
            x == (r - b) * u - from,
            x == m * (x / m) + s,
            k == from + s,
            t == (r - b) * w - (x / m) * a,
    ;
    lemma_mod_multiples_vanish(t, r, m);
    assert(m * t == t * m) by (nonlinear_arith);
    lemma_small_mod(r as nat, m as nat);
    k
}

/// Stepping once more.
pub proof fn lemma_step(b: int, a: int, m: int, k: int)
    requires
        m > 0,
    ensures
        (stepped(b, a, m, k) + a) % m == stepped(b, a, m, k + 1),
{
    lemma_add_mod_noop(b + k * a, a, m);
    lemma_add_mod_noop(stepped(b, a, m, k), a, m);
    vstd::arithmetic::div_mod::lemma_mod_twice(b + k * a, m);
    assert(b + k * a + a == b + (k + 1) * a) by (nonlinear_arith);
}

} // verus!
