//! Multiplication by carry-less product and Barrett reduction.

use vstd::prelude::*;

use crate::galois::field;

verus! {

/// `a` times the polynomial made of the low `n` bits of `b`, without reduction.
pub open spec fn carryless(a: u32, b: u16, n: nat) -> u32
    decreases n,
{
    if n == 0 {
        0
    } else {
        (if b & 1 == 1 {
            a
        } else {
            0u32
        }) ^ carryless(a << 1, b >> 1, (n - 1) as nat)
    }
}

/// The quotient of `q * x^16` by the field's polynomial. The Barrett constant is 0x1111a, so the
/// product with it takes shifts by 4, 8, 12, 13 and 15.
pub open spec fn barrett_quotient(q: u16) -> u16 {
    let t = q ^ (q >> 4);
    (t ^ (t >> 8)) ^ (q >> 13) ^ (q >> 15)
}

/// A carry-less product reduced modulo the field's polynomial.
pub open spec fn barrett(p: u32) -> u16 {
    let q = barrett_quotient((p >> 16) as u16);
    ((q ^ (q << 3)) ^ (q << 1) ^ (q << 12)) ^ (p as u16)
}

proof fn lemma_barrett_linear(a: u32, b: u32)
    ensures
        barrett(a ^ b) == barrett(a) ^ barrett(b),
        barrett(0) == 0,
{
    assert(barrett(a ^ b) == barrett(a) ^ barrett(b) && barrett(0) == 0) by (bit_vector);
}

proof fn lemma_barrett_doubles(p: u32)
    requires
        p < 0x8000_0000,
    ensures
        barrett(p << 1) == field::xtime(barrett(p)),
{
    assert(p < 0x8000_0000 ==> barrett(p << 1) == field::xtime(barrett(p))) by (bit_vector);
}

proof fn lemma_barrett_product(a: u32, b: u16, n: nat)
    requires
        n <= 16,
        (a as u64) << (n as u64) < 0x1_0000_0000,
    ensures
        barrett(carryless(a, b, n)) == field::times_bits(barrett(a), b, n),
    decreases n,
{
    lemma_barrett_linear(0, 0);
    if n > 0 {
        let m = (n - 1) as nat;
        let k = n as u64;
        assert(1 <= k <= 16 && (a as u64) << k < 0x1_0000_0000 ==> a < 0x8000_0000 && ((a
            << 1) as u64) << ((k - 1) as u64) < 0x1_0000_0000) by (bit_vector);
        lemma_barrett_product(a << 1, b >> 1, m);
        lemma_barrett_doubles(a);
        let x = if b & 1 == 1 {
            a
        } else {
            0u32
        };
        lemma_barrett_linear(x, carryless(a << 1, b >> 1, m));
    }
}

/// The carry-less product of two elements.
pub fn carryless_product(a: u16, b: u16) -> (r: u32)
    ensures
        r == carryless(a as u32, b, 16),
{
    let mut acc: u32 = 0;
    let mut x: u32 = a as u32;
    let mut y: u16 = b;
    proof {
        let c = carryless(a as u32, b, 16);
        assert(0 ^ c == c) by (bit_vector);
    }
    for i in 0..16u32
        invariant
            acc ^ carryless(x, y, (16 - i) as nat) == carryless(a as u32, b, 16),
    {
        proof {
            let rest = carryless(x << 1, y >> 1, (16 - i - 1) as nat);
            assert(acc ^ (x ^ rest) == (acc ^ x) ^ rest && acc ^ (0 ^ rest) == acc ^ rest)
                by (bit_vector);
        }
        if y & 1 == 1 {
            acc = acc ^ x;
        }
        x = x << 1;
        y = y >> 1;
    }
    proof {
        assert(acc ^ 0 == acc) by (bit_vector);
    }
    acc
}

/// Reduce a carry-less product modulo the field's polynomial by Barrett's method.
pub fn barrett_reduce(p: u32) -> (r: u16)
    ensures
        r == barrett(p),
{
    let high: u16 = (p >> 16) as u16;
    let t: u16 = high ^ (high >> 4);
    let q: u16 = (t ^ (t >> 8)) ^ (high >> 13) ^ (high >> 15);
    ((q ^ (q << 3)) ^ (q << 1) ^ (q << 12)) ^ (p as u16)
}

/// A carry-less product of two elements, reduced, is their product.
pub proof fn lemma_barrett_of_product(a: u16, b: u16)
    ensures
        barrett(carryless(a as u32, b, 16)) == field::product(a, b),
{
    assert((a as u64) << 16 < 0x1_0000_0000 && barrett(a as u32) == a) by (bit_vector);
    lemma_barrett_product(a as u32, b, 16);
}

/// Multiply two elements by carry-less product and Barrett reduction.
pub fn gf_mul_pclmul(a: u16, b: u16) -> (r: u16)
    ensures
        r == field::product(a, b),
{
    proof {
        lemma_barrett_of_product(a, b);
    }
    barrett_reduce(carryless_product(a, b))
}

} // verus!
