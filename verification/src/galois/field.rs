//! The field GF(2^16) that PAR2 computes in.
//!
//! An element is a polynomial of degree at most 15 over GF(2), held in a `u16` with bit `i` as
//! the coefficient of `x^i`. Addition is exclusive or. Multiplication is that of polynomials,
//! reduced modulo `x^16 + x^12 + x^3 + x + 1`.

use vstd::prelude::*;

verus! {

/// The generator polynomial of the field: `x^16 + x^12 + x^3 + x + 1`.
pub const GF_GENERATOR: u32 = 0x1100B;

/// `x * a` in the field.
pub open spec fn xtime(a: u16) -> u16 {
    if a & 0x8000 != 0 {
        (a << 1) ^ 0x100B
    } else {
        a << 1
    }
}

/// `a` times the polynomial made of the low `n` bits of `b`.
pub open spec fn times_bits(a: u16, b: u16, n: nat) -> u16
    decreases n,
{
    if n == 0 {
        0
    } else {
        (if b & 1 == 1 {
            a
        } else {
            0u16
        }) ^ times_bits(xtime(a), b >> 1, (n - 1) as nat)
    }
}

/// The product of `a` and `b` in the field.
pub open spec fn product(a: u16, b: u16) -> u16 {
    times_bits(a, b, 16)
}

/// `a` raised to the power `n`; the power 0 is 1, also for `a == 0`.
pub open spec fn power(a: u16, n: nat) -> u16
    decreases n,
{
    if n == 0 {
        1
    } else {
        product(a, power(a, (n - 1) as nat))
    }
}

/// Exclusive or is commutative and associative, has 0 as its neutral element, and each value is
/// its own inverse.
pub proof fn law_xor(a: u16, b: u16, c: u16)
    ensures
        a ^ b == b ^ a,
        (a ^ b) ^ c == a ^ (b ^ c),
        a ^ 0 == a,
        0 ^ a == a,
        a ^ a == 0,
        (a ^ b) ^ b == a,
{
    assert(a ^ b == b ^ a && (a ^ b) ^ c == a ^ (b ^ c) && a ^ 0 == a && 0 ^ a == a && a ^ a == 0
        && (a ^ b) ^ b == a) by (bit_vector);
}

pub proof fn lemma_xor_swap(p: u16, q: u16, x: u16, y: u16)
    ensures
        (p ^ q) ^ (x ^ y) == (p ^ x) ^ (q ^ y),
{
    assert((p ^ q) ^ (x ^ y) == (p ^ x) ^ (q ^ y)) by (bit_vector);
}

pub proof fn lemma_xtime_linear(a: u16, b: u16)
    ensures
        xtime(a ^ b) == xtime(a) ^ xtime(b),
        xtime(0) == 0,
{
    assert(xtime(a ^ b) == xtime(a) ^ xtime(b)) by (bit_vector);
    assert(xtime(0) == 0) by (bit_vector);
}

proof fn lemma_bits_of_xor(b: u16, d: u16)
    ensures
        (b ^ d) >> 1 == (b >> 1) ^ (d >> 1),
        ((b ^ d) & 1 == 1) == ((b & 1 == 1) != (d & 1 == 1)),
{
    assert((b ^ d) >> 1 == (b >> 1) ^ (d >> 1) && ((b ^ d) & 1 == 1) == ((b & 1 == 1) != (d & 1
        == 1))) by (bit_vector);
}

proof fn lemma_times_linear_left(a: u16, c: u16, b: u16, n: nat)
    ensures
        times_bits(a ^ c, b, n) == times_bits(a, b, n) ^ times_bits(c, b, n),
    decreases n,
{
    law_xor(0, 0, 0);
    if n > 0 {
        let m = (n - 1) as nat;
        lemma_xtime_linear(a, c);
        lemma_times_linear_left(xtime(a), xtime(c), b >> 1, m);
        let p = if b & 1 == 1 { a } else { 0u16 };
        let q = if b & 1 == 1 { c } else { 0u16 };
        lemma_xor_swap(p, q, times_bits(xtime(a), b >> 1, m), times_bits(xtime(c), b >> 1, m));
    }
}

proof fn lemma_times_linear_right(a: u16, b: u16, d: u16, n: nat)
    ensures
        times_bits(a, b ^ d, n) == times_bits(a, b, n) ^ times_bits(a, d, n),
    decreases n,
{
    law_xor(0, 0, 0);
    if n > 0 {
        let m = (n - 1) as nat;
        lemma_bits_of_xor(b, d);
        lemma_times_linear_right(xtime(a), b >> 1, d >> 1, m);
        let p = if b & 1 == 1 { a } else { 0u16 };
        let q = if d & 1 == 1 { a } else { 0u16 };
        law_xor(a, 0, 0);
        lemma_xor_swap(p, q, times_bits(xtime(a), b >> 1, m), times_bits(xtime(a), d >> 1, m));
    }
}

pub proof fn lemma_times_xtime(a: u16, b: u16, n: nat)
    ensures
        times_bits(xtime(a), b, n) == xtime(times_bits(a, b, n)),
    decreases n,
{
    lemma_xtime_linear(0, 0);
    if n > 0 {
        let m = (n - 1) as nat;
        lemma_times_xtime(xtime(a), b >> 1, m);
        let p = if b & 1 == 1 { a } else { 0u16 };
        lemma_xtime_linear(p, times_bits(xtime(a), b >> 1, m));
    }
}

pub proof fn lemma_times_zero(b: u16, n: nat)
    ensures
        times_bits(0, b, n) == 0,
    decreases n,
{
    law_xor(0, 0, 0);
    lemma_xtime_linear(0, 0);
    if n > 0 {
        lemma_times_zero(b >> 1, (n - 1) as nat);
    }
}

/// 1 is the unit of multiplication.
pub proof fn law_product_one(a: u16)
    ensures
        product(1, a) == a,
        product(a, 1) == a,
{
    assert(product(1, a) == a) by (bit_vector);
    law_product_commutes(a, 1);
}

/// A product is 0 if a factor is 0.
pub proof fn law_product_zero(a: u16)
    ensures
        product(0, a) == 0,
        product(a, 0) == 0,
{
    lemma_times_zero(a, 16);
    law_product_commutes(a, 0);
}

/// Multiplication distributes over addition, from either side.
pub proof fn law_product_distributes(a: u16, b: u16, c: u16)
    ensures
        product(a ^ b, c) == product(a, c) ^ product(b, c),
        product(c, a ^ b) == product(c, a) ^ product(c, b),
{
    lemma_times_linear_left(a, b, c, 16);
    lemma_times_linear_right(c, a, b, 16);
}

proof fn lemma_commutes_bits(a: u16, b: u16, n: nat)
    requires
        n <= 16,
        (a as u32) >> (n as u32) == 0,
    ensures
        times_bits(b, a, n) == product(a, b),
    decreases n,
{
    if n == 0 {
        assert((a as u32) >> 0 == 0 ==> a == 0) by (bit_vector);
        lemma_times_zero(b, 16);
    } else {
        let m = (n - 1) as nat;
        let k = m as u32;
        let h = a >> 1;
        let low = a & 1;
        assert(k < 16 && (a as u32) >> ((k + 1) as u32) == 0 ==> ((a >> 1) as u32) >> k == 0)
            by (bit_vector);
        lemma_commutes_bits(h, b, m);
        lemma_times_xtime(b, h, m);
        assert(a == (a & 1) ^ xtime(a >> 1) && (a & 1 == 0 || a & 1 == 1)) by (bit_vector);
        lemma_times_linear_left(low, xtime(h), b, 16);
        lemma_times_xtime(h, b, 16);
        assert(product(1, b) == b) by (bit_vector);
        lemma_times_zero(b, 16);
    }
}

/// Multiplication is commutative.
pub proof fn law_product_commutes(a: u16, b: u16)
    ensures
        product(a, b) == product(b, a),
{
    assert((a as u32) >> 16 == 0) by (bit_vector);
    lemma_commutes_bits(a, b, 16);
}

proof fn lemma_associates_bits(a: u16, b: u16, c: u16, n: nat)
    ensures
        times_bits(product(a, b), c, n) == product(a, times_bits(b, c, n)),
    decreases n,
{
    law_product_zero(a);
    if n > 0 {
        let m = (n - 1) as nat;
        let t = times_bits(b, c >> 1, m);
        lemma_associates_bits(a, b, c >> 1, m);
        lemma_times_xtime(product(a, b), c >> 1, m);
        lemma_times_xtime(b, c >> 1, m);
        let p = if c & 1 == 1 { b } else { 0u16 };
        law_product_distributes(p, xtime(t), a);
        law_product_commutes(a, xtime(t));
        lemma_times_xtime(t, a, 16);
        law_product_commutes(a, t);
    }
}

/// Multiplication is associative.
pub proof fn law_product_associates(a: u16, b: u16, c: u16)
    ensures
        product(product(a, b), c) == product(a, product(b, c)),
{
    lemma_associates_bits(a, b, c, 16);
}

/// Powers of one base multiply by adding their exponents.
pub proof fn law_power_adds(a: u16, m: nat, n: nat)
    ensures
        power(a, m + n) == product(power(a, m), power(a, n)),
    decreases m,
{
    if m == 0 {
        law_product_one(power(a, n));
    } else {
        let k = (m - 1) as nat;
        law_power_adds(a, k, n);
        law_product_associates(a, power(a, k), power(a, n));
        assert((m + n - 1) as nat == k + n);
    }
}

/// A power of a power multiplies the exponents.
pub proof fn law_power_multiplies(a: u16, m: nat, n: nat)
    ensures
        power(a, m * n) == power(power(a, m), n),
    decreases n,
{
    if n == 0 {
        assert(m * n == 0) by (nonlinear_arith)
            requires
                n == 0,
        ;
    } else {
        let k = (n - 1) as nat;
        law_power_multiplies(a, m, k);
        assert(m * n == m + m * k) by (nonlinear_arith)
            requires
                n == k + 1,
        ;
        law_power_adds(a, m, m * k);
    }
}

/// Every power of 1 is 1.
pub proof fn law_power_of_one(n: nat)
    ensures
        power(1, n) == 1,
    decreases n,
{
    if n > 0 {
        law_power_of_one((n - 1) as nat);
        law_product_one(1);
    }
}

} // verus!
