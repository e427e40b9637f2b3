//! The multiplicative group of the field: 2 generates it, so every nonzero element is a power of
//! 2 and has an inverse.

use vstd::prelude::*;

use crate::galois::field;

verus! {

proof fn lemma_table_of_products()
    ensures
        field::product(0x2, 0x2) == 0x4,
        field::product(0x4, 0x4) == 0x10,
        field::product(0x10, 0x10) == 0x100,
        field::product(0x100, 0x100) == 0x100b,
        field::product(0x100b, 0x100b) == 0x1bfe,
        field::product(0x1bfe, 0x1bfe) == 0x5c24,
        field::product(0x5c24, 0x5c24) == 0xe647,
        field::product(0xe647, 0xe647) == 0xb2f,
        field::product(0xb2f, 0xb2f) == 0x169e,
        field::product(0x169e, 0x169e) == 0xa78,
        field::product(0xa78, 0xa78) == 0x1780,
        field::product(0x1780, 0x1780) == 0x1b27,
        field::product(0x1b27, 0x1b27) == 0xd65,
        field::product(0xd65, 0xd65) == 0x564d,
        field::product(0x564d, 0x564d) == 0xf0c6,
        field::product(0xf0c6, 0xf0c6) == 0x2,
        field::product(0x2, 0x10) == 0x20,
        field::product(0x20, 0x100b) == 0x2176,
        field::product(0x2176, 0x5c24) == 0x1539,
        field::product(0x1539, 0xb2f) == 0x3308,
        field::product(0x3308, 0xa78) == 0xd6b8,
        field::product(0xd6b8, 0x1b27) == 0xf0ec,
        field::product(0xf0ec, 0x564d) == 0x15e,
        field::product(0x2, 0x4) == 0x8,
        field::product(0x8, 0x100b) == 0x8058,
        field::product(0x8058, 0x1bfe) == 0x41be,
        field::product(0x41be, 0xb2f) == 0x7c64,
        field::product(0x7c64, 0x169e) == 0xe977,
        field::product(0xe977, 0x1b27) == 0x4adc,
        field::product(0x4adc, 0xd65) == 0x1ce8,
        field::product(0x8, 0x10) == 0x80,
        field::product(0x80, 0x100) == 0x8000,
        field::product(0x8000, 0xb2f) == 0x1005,
        field::product(0x1005, 0x169e) == 0x4494,
        field::product(0x4494, 0xa78) == 0xf115,
        field::product(0xf115, 0x1780) == 0x4d78,
        field::product(0x8000, 0x100b) == 0xdff,
        field::product(0xdff, 0x1bfe) == 0x2e12,
        field::product(0x2e12, 0x5c24) == 0xfb26,
        field::product(0xfb26, 0xe647) == 0x8d92,
        field::product(0x8d92, 0xb2f) == 0xb4f,
        field::product(0xb4f, 0x169e) == 0x53c,
        field::product(0x53c, 0xa78) == 0xbc0,
        field::product(0xbc0, 0x1780) == 0x8596,
        field::product(0x8596, 0x1b27) == 0x8eb7,
        field::product(0x8eb7, 0xd65) == 0xa323,
        field::product(0xa323, 0x564d) == 0x7863,
        field::product(0x7863, 0xf0c6) == 0x1,
{
    assert(
        field::product(0x2, 0x2) == 0x4
        && field::product(0x4, 0x4) == 0x10
        && field::product(0x10, 0x10) == 0x100
        && field::product(0x100, 0x100) == 0x100b
        && field::product(0x100b, 0x100b) == 0x1bfe
        && field::product(0x1bfe, 0x1bfe) == 0x5c24
        && field::product(0x5c24, 0x5c24) == 0xe647
        && field::product(0xe647, 0xe647) == 0xb2f
        && field::product(0xb2f, 0xb2f) == 0x169e
        && field::product(0x169e, 0x169e) == 0xa78
        && field::product(0xa78, 0xa78) == 0x1780
        && field::product(0x1780, 0x1780) == 0x1b27
        && field::product(0x1b27, 0x1b27) == 0xd65
        && field::product(0xd65, 0xd65) == 0x564d
        && field::product(0x564d, 0x564d) == 0xf0c6
        && field::product(0xf0c6, 0xf0c6) == 0x2
        && field::product(0x2, 0x10) == 0x20
        && field::product(0x20, 0x100b) == 0x2176
        && field::product(0x2176, 0x5c24) == 0x1539
        && field::product(0x1539, 0xb2f) == 0x3308
        && field::product(0x3308, 0xa78) == 0xd6b8
        && field::product(0xd6b8, 0x1b27) == 0xf0ec
        && field::product(0xf0ec, 0x564d) == 0x15e
        && field::product(0x2, 0x4) == 0x8
        && field::product(0x8, 0x100b) == 0x8058
        && field::product(0x8058, 0x1bfe) == 0x41be
        && field::product(0x41be, 0xb2f) == 0x7c64
        && field::product(0x7c64, 0x169e) == 0xe977
        && field::product(0xe977, 0x1b27) == 0x4adc
        && field::product(0x4adc, 0xd65) == 0x1ce8
        && field::product(0x8, 0x10) == 0x80
        && field::product(0x80, 0x100) == 0x8000
        && field::product(0x8000, 0xb2f) == 0x1005
        && field::product(0x1005, 0x169e) == 0x4494
        && field::product(0x4494, 0xa78) == 0xf115
        && field::product(0xf115, 0x1780) == 0x4d78
        && field::product(0x8000, 0x100b) == 0xdff
        && field::product(0xdff, 0x1bfe) == 0x2e12
        && field::product(0x2e12, 0x5c24) == 0xfb26
        && field::product(0xfb26, 0xe647) == 0x8d92
        && field::product(0x8d92, 0xb2f) == 0xb4f
        && field::product(0xb4f, 0x169e) == 0x53c
        && field::product(0x53c, 0xa78) == 0xbc0
        && field::product(0xbc0, 0x1780) == 0x8596
        && field::product(0x8596, 0x1b27) == 0x8eb7
        && field::product(0x8eb7, 0xd65) == 0xa323
        && field::product(0xa323, 0x564d) == 0x7863
        && field::product(0x7863, 0xf0c6) == 0x1) by (bit_vector);
}

/// 2 raised to 65535 is 1, and none of its powers to 65535 divided by a prime factor of 65535 is.
pub proof fn lemma_powers_of_two()
    ensures
        field::power(2, 65535) == 1,
        field::power(2, 21845) != 1,
        field::power(2, 13107) != 1,
        field::power(2, 3855) != 1,
        field::power(2, 255) != 1,
{
    lemma_table_of_products();
    field::law_product_one(2);
    assert(field::power(2, 0) == 1);
    assert(field::power(2, 1) == 2);
    field::law_power_adds(2, 1, 1);
    assert(field::power(2, 2) == 0x4);
    field::law_power_adds(2, 2, 2);
    assert(field::power(2, 4) == 0x10);
    field::law_power_adds(2, 4, 4);
    assert(field::power(2, 8) == 0x100);
    field::law_power_adds(2, 8, 8);
    assert(field::power(2, 16) == 0x100b);
    field::law_power_adds(2, 16, 16);
    assert(field::power(2, 32) == 0x1bfe);
    field::law_power_adds(2, 32, 32);
    assert(field::power(2, 64) == 0x5c24);
    field::law_power_adds(2, 64, 64);
    assert(field::power(2, 128) == 0xe647);
    field::law_power_adds(2, 128, 128);
    assert(field::power(2, 256) == 0xb2f);
    field::law_power_adds(2, 256, 256);
    assert(field::power(2, 512) == 0x169e);
    field::law_power_adds(2, 512, 512);
    assert(field::power(2, 1024) == 0xa78);
    field::law_power_adds(2, 1024, 1024);
    assert(field::power(2, 2048) == 0x1780);
    field::law_power_adds(2, 2048, 2048);
    assert(field::power(2, 4096) == 0x1b27);
    field::law_power_adds(2, 4096, 4096);
    assert(field::power(2, 8192) == 0xd65);
    field::law_power_adds(2, 8192, 8192);
    assert(field::power(2, 16384) == 0x564d);
    field::law_power_adds(2, 16384, 16384);
    assert(field::power(2, 32768) == 0xf0c6);
    field::law_power_adds(2, 1, 4);
    assert(field::power(2, 5) == 0x20);
    field::law_power_adds(2, 5, 16);
    assert(field::power(2, 21) == 0x2176);
    field::law_power_adds(2, 21, 64);
    assert(field::power(2, 85) == 0x1539);
    field::law_power_adds(2, 85, 256);
    assert(field::power(2, 341) == 0x3308);
    field::law_power_adds(2, 341, 1024);
    assert(field::power(2, 1365) == 0xd6b8);
    field::law_power_adds(2, 1365, 4096);
    assert(field::power(2, 5461) == 0xf0ec);
    field::law_power_adds(2, 5461, 16384);
    assert(field::power(2, 21845) == 0x15e);
    field::law_power_adds(2, 1, 2);
    assert(field::power(2, 3) == 0x8);
    field::law_power_adds(2, 3, 16);
    assert(field::power(2, 19) == 0x8058);
    field::law_power_adds(2, 19, 32);
    assert(field::power(2, 51) == 0x41be);
    field::law_power_adds(2, 51, 256);
    assert(field::power(2, 307) == 0x7c64);
    field::law_power_adds(2, 307, 512);
    assert(field::power(2, 819) == 0xe977);
    field::law_power_adds(2, 819, 4096);
    assert(field::power(2, 4915) == 0x4adc);
    field::law_power_adds(2, 4915, 8192);
    assert(field::power(2, 13107) == 0x1ce8);
    field::law_power_adds(2, 3, 4);
    assert(field::power(2, 7) == 0x80);
    field::law_power_adds(2, 7, 8);
    assert(field::power(2, 15) == 0x8000);
    field::law_power_adds(2, 15, 256);
    assert(field::power(2, 271) == 0x1005);
    field::law_power_adds(2, 271, 512);
    assert(field::power(2, 783) == 0x4494);
    field::law_power_adds(2, 783, 1024);
    assert(field::power(2, 1807) == 0xf115);
    field::law_power_adds(2, 1807, 2048);
    assert(field::power(2, 3855) == 0x4d78);
    field::law_power_adds(2, 15, 16);
    assert(field::power(2, 31) == 0xdff);
    field::law_power_adds(2, 31, 32);
    assert(field::power(2, 63) == 0x2e12);
    field::law_power_adds(2, 63, 64);
    assert(field::power(2, 127) == 0xfb26);
    field::law_power_adds(2, 127, 128);
    assert(field::power(2, 255) == 0x8d92);
    field::law_power_adds(2, 255, 256);
    assert(field::power(2, 511) == 0xb4f);
    field::law_power_adds(2, 511, 512);
    assert(field::power(2, 1023) == 0x53c);
    field::law_power_adds(2, 1023, 1024);
    assert(field::power(2, 2047) == 0xbc0);
    field::law_power_adds(2, 2047, 2048);
    assert(field::power(2, 4095) == 0x8596);
    field::law_power_adds(2, 4095, 4096);
    assert(field::power(2, 8191) == 0x8eb7);
    field::law_power_adds(2, 8191, 8192);
    assert(field::power(2, 16383) == 0xa323);
    field::law_power_adds(2, 16383, 16384);
    assert(field::power(2, 32767) == 0x7863);
    field::law_power_adds(2, 32767, 32768);
    assert(field::power(2, 65535) == 0x1);
}

/// If `s` inverts `q` modulo `p`, then `p` divides `k` wherever it divides `k * q`.
proof fn lemma_euclid(p: int, k: int, q: int, s: int)
    requires
        p > 1,
        (k * q) % p == 0,
        (q * s) % p == 1,
    ensures
        k % p == 0,
{
    vstd::arithmetic::div_mod::lemma_mul_mod_noop_left(k * q, s, p);
    vstd::arithmetic::div_mod::lemma_mul_mod_noop_right(k, q * s, p);
    vstd::arithmetic::mul::lemma_mul_is_associative(k, q, s);
    assert(((k * q) % p) * s == 0) by (nonlinear_arith)
        requires
            (k * q) % p == 0,
    ;
    assert((k * q * s) % p == 0) by {
        vstd::arithmetic::div_mod::lemma_small_mod(0, p as nat);
    }
    assert(k * ((q * s) % p) == k) by (nonlinear_arith)
        requires
            (q * s) % p == 1,
    ;
}

/// An inverse of `r` modulo 17.
spec fn inverse_mod_17(r: int) -> int {
    if r == 1 {
        1
    } else if r == 2 {
        9
    } else if r == 3 {
        6
    } else if r == 4 {
        13
    } else if r == 5 {
        7
    } else if r == 6 {
        3
    } else if r == 7 {
        5
    } else if r == 8 {
        15
    } else if r == 9 {
        2
    } else if r == 10 {
        12
    } else if r == 11 {
        14
    } else if r == 12 {
        10
    } else if r == 13 {
        4
    } else if r == 14 {
        11
    } else if r == 15 {
        8
    } else {
        16
    }
}

/// 257 is prime.
proof fn lemma_257_is_prime(j: int, q: int)
    requires
        j * q == 257,
        j > 0,
        q > 0,
    ensures
        j == 1 || q == 1,
{
    if j >= 2 && q >= 2 {
        assert(j <= 16 || q <= 16) by (nonlinear_arith)
            requires
                j * q == 257,
        ;
        let d = if j <= 16 { j } else { q };
        let e = if j <= 16 { q } else { j };
        assert(d * e == 257) by (nonlinear_arith)
            requires
                (d == j && e == q) || (d == q && e == j),
                j * q == 257,
        ;
        assert(d == 2 || d == 3 || d == 4 || d == 5 || d == 6 || d == 7 || d == 8 || d == 9 || d
            == 10 || d == 11 || d == 12 || d == 13 || d == 14 || d == 15 || d == 16);
        assert(2 * e != 257 && 3 * e != 257 && 4 * e != 257 && 5 * e != 257 && 6 * e != 257 && 7
            * e != 257 && 8 * e != 257 && 9 * e != 257 && 10 * e != 257 && 11 * e != 257 && 12 * e
            != 257 && 13 * e != 257 && 14 * e != 257 && 15 * e != 257 && 16 * e != 257);
    }
}

/// A divisor of 65535 other than 1 is a multiple of 3, 5, 17 or 257.
proof fn lemma_factors(k: int, q: int)
    requires
        0 < k < 65535,
        q > 0,
        k * q == 65535,
    ensures
        q % 3 == 0 || q % 5 == 0 || q % 17 == 0 || q % 257 == 0,
{
    if q % 3 != 0 && q % 5 != 0 && q % 17 != 0 {
        let r3 = q % 3;
        let s3: int = if r3 == 1 {
            1
        } else {
            2
        };
        assert((q * s3) % 3 == 1) by {
            vstd::arithmetic::div_mod::lemma_mul_mod_noop_left(q, s3, 3);
        }
        lemma_euclid(3, k, q, s3);
        let r5 = q % 5;
        let s5: int = if r5 == 1 {
            1
        } else if r5 == 2 {
            3
        } else if r5 == 3 {
            2
        } else {
            4
        };
        assert((q * s5) % 5 == 1) by {
            vstd::arithmetic::div_mod::lemma_mul_mod_noop_left(q, s5, 5);
        }
        lemma_euclid(5, k, q, s5);
        let r17 = q % 17;
        let s17 = inverse_mod_17(r17);
        assert((q * s17) % 17 == 1) by {
            vstd::arithmetic::div_mod::lemma_mul_mod_noop_left(q, s17, 17);
        }
        lemma_euclid(17, k, q, s17);
        assert(k % 255 == 0);
        let j = k / 255;
        assert(j * q == 257) by (nonlinear_arith)
            requires
                k == 255 * j,
                k * q == 65535,
        ;
        lemma_257_is_prime(j, q);
    }
}

proof fn lemma_multiple_of_period(k: nat, m: nat)
    requires
        field::power(2, k) == 1,
    ensures
        field::power(2, k * m) == 1,
{
    field::law_power_multiplies(2, k, m);
    field::law_power_of_one(m);
}

proof fn lemma_no_short_period(k: nat)
    requires
        0 < k < 65535,
    ensures
        field::power(2, k) != 1,
    decreases k,
{
    if field::power(2, k) == 1 {
        lemma_powers_of_two();
        let q: nat = 65535nat / k;
        let r: nat = 65535nat % k;
        vstd::arithmetic::div_mod::lemma_fundamental_div_mod(65535, k as int);
        assert(q <= 65535) by (nonlinear_arith)
            requires
                k * q + r == 65535,
                k > 0,
                r >= 0,
        ;
        lemma_multiple_of_period(k, q);
        field::law_power_adds(2, k * q, r);
        field::law_product_one(field::power(2, r));
        if r > 0 {
            lemma_no_short_period(r);
        } else {
            assert(q > 0) by (nonlinear_arith)
                requires
                    k * q == 65535,
            ;
            lemma_factors(k as int, q as int);
            if q % 3 == 0 {
                lemma_multiple_of_period(k, q / 3);
                assert(k * (q / 3) == 21845) by (nonlinear_arith)
                    requires
                        k * q == 65535,
                        q % 3 == 0,
                ;
            } else if q % 5 == 0 {
                lemma_multiple_of_period(k, q / 5);
                assert(k * (q / 5) == 13107) by (nonlinear_arith)
                    requires
                        k * q == 65535,
                        q % 5 == 0,
                ;
            } else if q % 17 == 0 {
                lemma_multiple_of_period(k, q / 17);
                assert(k * (q / 17) == 3855) by (nonlinear_arith)
                    requires
                        k * q == 65535,
                        q % 17 == 0,
                ;
            } else {
                lemma_multiple_of_period(k, q / 257);
                assert(k * (q / 257) == 255) by (nonlinear_arith)
                    requires
                        k * q == 65535,
                        q % 257 == 0,
                ;
            }
        }
    }
}

/// No power of 2 is 0.
pub proof fn law_power_of_two_nonzero(n: nat)
    ensures
        field::power(2, n) != 0,
    decreases n,
{
    if n > 0 {
        let p = field::power(2, (n - 1) as nat);
        law_power_of_two_nonzero((n - 1) as nat);
        assert(p != 0 ==> field::product(2, p) != 0) by (bit_vector);
    }
}

/// The exponents of the powers of 2 count modulo 65535.
pub proof fn law_power_of_two_wraps(n: nat)
    ensures
        field::power(2, n + 65535) == field::power(2, n),
        field::power(2, n) == field::power(2, n % 65535),
    decreases n,
{
    lemma_powers_of_two();
    field::law_power_adds(2, n, 65535);
    field::law_product_one(field::power(2, n));
    if n >= 65535 {
        law_power_of_two_wraps((n - 65535) as nat);
    }
}

/// The powers of 2 with an exponent below 65535 all differ.
pub proof fn law_powers_of_two_distinct(i: nat, j: nat)
    requires
        i < j < 65535,
    ensures
        field::power(2, i) != field::power(2, j),
{
    if field::power(2, i) == field::power(2, j) {
        let back = (65535 - i) as nat;
        let k = (j - i) as nat;
        lemma_powers_of_two();
        field::law_power_adds(2, i, back);
        field::law_power_adds(2, j, back);
        assert(j + back == k + 65535);
        law_power_of_two_wraps(k);
        lemma_no_short_period(k);
    }
}

spec fn exponents() -> Set<int> {
    vstd::set_lib::set_int_range(0, 65535)
}

spec fn nonzero() -> Set<int> {
    vstd::set_lib::set_int_range(1, 65536)
}

/// Every nonzero element of the field is a power of 2.
pub proof fn law_nonzero_is_power_of_two(a: u16)
    requires
        a != 0,
    ensures
        exists|i: nat| i < 65535 && #[trigger] field::power(2, i) == a,
{
    let f = |i: int| field::power(2, i as nat) as int;
    let image = exponents().map(f);
    vstd::set_lib::lemma_int_range(0, 65535);
    vstd::set_lib::lemma_int_range(1, 65536);
    assert forall|x: int, y: int|
        exponents().contains(x) && exponents().contains(y) && #[trigger] f(x) == #[trigger] f(
            y,
        ) implies x == y by {
        if x < y {
            law_powers_of_two_distinct(x as nat, y as nat);
        } else if y < x {
            law_powers_of_two_distinct(y as nat, x as nat);
        }
    }
    vstd::set_lib::lemma_map_size(exponents(), image, f);
    assert forall|v: int| image.contains(v) implies nonzero().contains(v) by {
        let i = choose|i: int| exponents().contains(i) && f(i) == v;
        law_power_of_two_nonzero(i as nat);
    }
    vstd::set_lib::lemma_subset_equality(image, nonzero());
    assert(image.contains(a as int));
    let i = choose|i: int| exponents().contains(i) && f(i) == a as int;
    assert(field::power(2, i as nat) == a);
}

/// The exponent below 65535 to which 2 gives `a`; `a` must not be 0.
pub open spec fn logarithm(a: u16) -> nat {
    choose|i: nat| i < 65535 && #[trigger] field::power(2, i) == a
}

/// The logarithm of a nonzero element is below 65535, and 2 raised to it is that element.
pub proof fn law_logarithm(a: u16)
    requires
        a != 0,
    ensures
        logarithm(a) < 65535,
        field::power(2, logarithm(a)) == a,
{
    law_nonzero_is_power_of_two(a);
}

/// The multiplicative inverse of `a`; `a` must not be 0.
pub open spec fn inverse(a: u16) -> u16 {
    field::power(a, 65534)
}

/// `a` divided by `b`; `b` must not be 0.
pub open spec fn quotient(a: u16, b: u16) -> u16 {
    field::product(a, inverse(b))
}

/// A nonzero element times its inverse is 1.
pub proof fn law_inverse(a: u16)
    requires
        a != 0,
    ensures
        field::product(a, inverse(a)) == 1,
        field::product(inverse(a), a) == 1,
        inverse(a) != 0,
{
    let i = logarithm(a);
    law_logarithm(a);
    lemma_powers_of_two();
    field::law_power_multiplies(2, i, 65535);
    field::law_power_multiplies(2, 65535, i);
    field::law_power_of_one(i);
    assert(i * 65535 == 65535 * i);
    assert(field::power(a, 65535) == 1);
    field::law_product_commutes(a, inverse(a));
    field::law_product_zero(a);
}

/// Division undoes multiplication, and multiplication undoes division.
pub proof fn law_quotient(a: u16, b: u16)
    requires
        b != 0,
    ensures
        field::product(quotient(a, b), b) == a,
        quotient(field::product(a, b), b) == a,
{
    law_inverse(b);
    field::law_product_associates(a, inverse(b), b);
    field::law_product_associates(a, b, inverse(b));
    field::law_product_one(a);
}

/// A product is 0 only if a factor is 0.
pub proof fn law_no_zero_divisors(a: u16, b: u16)
    requires
        field::product(a, b) == 0,
    ensures
        a == 0 || b == 0,
{
    if b != 0 {
        law_quotient(a, b);
        field::law_product_zero(inverse(b));
    }
}

} // verus!
