//! Multiplication as it is done on AArch64: elements are cut into bytes, the bytes are multiplied
//! without carry, and the products are put together after Karatsuba and reduced after Barrett.

use vstd::prelude::*;

use crate::galois::bulk;
use crate::galois::field;
use crate::galois::ops;
use crate::galois::simd::batch;
use crate::galois::simd::clmul;
use crate::galois::sums;

verus! {

/// The carry-less product of two bytes.
pub open spec fn byte_product(a: u8, b: u8) -> u32 {
    clmul::carryless(a as u32, b as u16, 8)
}

/// A carry-less product put together from three products of bytes: that of the low bytes, that of the
/// high bytes, and that of the sums of both.
pub open spec fn karatsuba(low: u32, mid: u32, high: u32) -> u32 {
    low ^ ((mid ^ low ^ high) << 8) ^ (high << 16)
}

proof fn lemma_carryless_left(a: u32, b: u32, c: u16, n: nat)
    ensures
        clmul::carryless(a ^ b, c, n) == clmul::carryless(a, c, n) ^ clmul::carryless(b, c, n),
    decreases n,
{
    if n > 0 {
        let m = (n - 1) as nat;
        let d = c >> 1;
        lemma_carryless_left(a << 1, b << 1, d, m);
        let x = clmul::carryless(a << 1, d, m);
        let y = clmul::carryless(b << 1, d, m);
        assert((a ^ b) << 1 == (a << 1) ^ (b << 1) && (a ^ b) ^ (x ^ y) == (a ^ x) ^ (b ^ y) && 0u32
            ^ (x ^ y) == (0u32 ^ x) ^ (0u32 ^ y)) by (bit_vector);
    } else {
        assert(0u32 ^ 0u32 == 0u32) by (bit_vector);
    }
}

proof fn lemma_carryless_right(a: u32, b: u16, c: u16, n: nat)
    ensures
        clmul::carryless(a, b ^ c, n) == clmul::carryless(a, b, n) ^ clmul::carryless(a, c, n),
    decreases n,
{
    if n > 0 {
        let m = (n - 1) as nat;
        lemma_carryless_right(a << 1, b >> 1, c >> 1, m);
        let x = clmul::carryless(a << 1, b >> 1, m);
        let y = clmul::carryless(a << 1, c >> 1, m);
        assert((b ^ c) >> 1 == (b >> 1) ^ (c >> 1) && (b & 1 == 0 || b & 1 == 1) && (c & 1 == 0 || c
            & 1 == 1) && ((b ^ c) & 1 == 1 <==> (b & 1 == 1) != (c & 1 == 1)) && a ^ (x ^ y) == (a
            ^ x) ^ (0u32 ^ y) && a ^ (x ^ y) == (0u32 ^ x) ^ (a ^ y) && 0u32 ^ (x ^ y) == (a ^ x)
            ^ (a ^ y) && 0u32 ^ (x ^ y) == (0u32 ^ x) ^ (0u32 ^ y)) by (bit_vector);
    } else {
        assert(0u32 ^ 0u32 == 0u32) by (bit_vector);
    }
}

proof fn lemma_carryless_shifted(a: u32, b: u16, n: nat)
    ensures
        clmul::carryless(a << 8, b, n) == clmul::carryless(a, b, n) << 8,
    decreases n,
{
    if n > 0 {
        let m = (n - 1) as nat;
        lemma_carryless_shifted(a << 1, b >> 1, m);
        let x = clmul::carryless(a << 1, b >> 1, m);
        assert((a << 8) << 1 == (a << 1) << 8 && (a ^ x) << 8 == (a << 8) ^ (x << 8) && (0u32 ^ x)
            << 8 == 0u32 ^ (x << 8)) by (bit_vector);
    } else {
        assert(0u32 << 8 == 0u32) by (bit_vector);
    }
}

/// Only the low 8 bits of a factor of 8 bits count, and the other 8 bits follow them.
proof fn lemma_carryless_split(a: u32, b: u16)
    ensures
        clmul::carryless(a, b, 16) == clmul::carryless(a, b & 0xff, 8) ^ (clmul::carryless(
            a,
            b >> 8,
            8,
        ) << 8),
{
    lemma_carryless_shifted(a, b >> 8, 8);
    lemma_carryless_cut(a, b, 8, 8);
    assert((b ^ (b & 0xff)) & (((1u16 << 8u16) - 1) as u16) == 0) by (bit_vector);
    lemma_carryless_low(a, b, b & 0xff, 8);
    lemma_shifts(a, b);
}

spec fn left(a: u32, n: nat) -> u32
    decreases n,
{
    if n == 0 {
        a
    } else {
        left(a << 1, (n - 1) as nat)
    }
}

spec fn right(b: u16, n: nat) -> u16
    decreases n,
{
    if n == 0 {
        b
    } else {
        right(b >> 1, (n - 1) as nat)
    }
}

proof fn lemma_shifts(a: u32, b: u16)
    ensures
        left(a, 8) == a << 8,
        right(b, 8) == b >> 8,
{
    reveal_with_fuel(left, 9);
    reveal_with_fuel(right, 9);
    assert((((((((a << 1) << 1) << 1) << 1) << 1) << 1) << 1) << 1 == a << 8 && (((((((b >> 1) >> 1)
        >> 1) >> 1) >> 1) >> 1) >> 1) >> 1 == b >> 8) by (bit_vector);
}

proof fn lemma_carryless_cut(a: u32, b: u16, n: nat, m: nat)
    ensures
        clmul::carryless(a, b, n + m) == clmul::carryless(a, b, n) ^ clmul::carryless(
            left(a, n),
            right(b, n),
            m,
        ),
    decreases n,
{
    let rest = clmul::carryless(left(a, n), right(b, n), m);
    if n > 0 {
        let k = (n - 1) as nat;
        lemma_carryless_cut(a << 1, b >> 1, k, m);
        let x = clmul::carryless(a << 1, b >> 1, k);
        assert(a ^ (x ^ rest) == (a ^ x) ^ rest && 0u32 ^ (x ^ rest) == (0u32 ^ x) ^ rest)
            by (bit_vector);
    } else {
        assert(0u32 ^ rest == rest) by (bit_vector);
    }
}

/// Factors with the same low bits have the same product.
proof fn lemma_carryless_low(a: u32, b: u16, c: u16, n: nat)
    requires
        n <= 8,
        (b ^ c) & (((1u16 << (n as u16)) - 1) as u16) == 0,
    ensures
        clmul::carryless(a, b, n) == clmul::carryless(a, c, n),
    decreases n,
{
    if n > 0 {
        let k = n as u16;
        assert(1 <= k <= 8 && (b ^ c) & (((1u16 << k) - 1) as u16) == 0 ==> b & 1 == c & 1 && ((b
            >> 1) ^ (c >> 1)) & (((1u16 << ((k - 1) as u16)) - 1) as u16) == 0) by (bit_vector);
        lemma_carryless_low(a << 1, b >> 1, c >> 1, (n - 1) as nat);
    }
}

/// Karatsuba: three products of bytes make up the product of two elements.
proof fn lemma_karatsuba(a: u16, s: u16)
    ensures
        ({
            let al = (a & 0xff) as u8;
            let ah = (a >> 8) as u8;
            let sl = (s & 0xff) as u8;
            let sh = (s >> 8) as u8;
            clmul::carryless(a as u32, s, 16) == karatsuba(
                byte_product(al, sl),
                byte_product(al ^ ah, sl ^ sh),
                byte_product(ah, sh),
            )
        }),
{
    let al = (a & 0xff) as u8;
    let ah = (a >> 8) as u8;
    let sl = (s & 0xff) as u8;
    let sh = (s >> 8) as u8;
    let x = al as u32;
    let y = ah as u32;
    let u = sl as u16;
    let v = sh as u16;
    assert(a as u32 == ((a & 0xff) as u8) as u32 ^ ((((a >> 8) as u8) as u32) << 8) && s & 0xff == (
    (s & 0xff) as u8) as u16 && s >> 8 == ((s >> 8) as u8) as u16 && (al ^ ah) as u32 == (al as u32)
        ^ (ah as u32) && (sl ^ sh) as u16 == (sl as u16) ^ (sh as u16)) by (bit_vector)
        requires
            al == (a & 0xff) as u8,
            ah == (a >> 8) as u8,
            sl == (s & 0xff) as u8,
            sh == (s >> 8) as u8,
    ;
    lemma_carryless_split(a as u32, s);
    lemma_carryless_left(x, y << 8, u, 8);
    lemma_carryless_left(x, y << 8, v, 8);
    lemma_carryless_shifted(y, u, 8);
    lemma_carryless_shifted(y, v, 8);
    lemma_carryless_left(x, y, u ^ v, 8);
    lemma_carryless_right(x, u, v, 8);
    lemma_carryless_right(y, u, v, 8);
    let ll = clmul::carryless(x, u, 8);
    let lh = clmul::carryless(x, v, 8);
    let hl = clmul::carryless(y, u, 8);
    let hh = clmul::carryless(y, v, 8);
    assert((ll ^ (hl << 8)) ^ ((lh ^ (hh << 8)) << 8) == ll ^ ((((ll ^ lh) ^ (hl ^ hh)) ^ ll ^ hh)
        << 8) ^ (hh << 16)) by (bit_vector);
}

/// Multiply two bytes without carry.
pub fn multiply_bytes(a: u8, b: u8) -> (r: u32)
    ensures
        r == byte_product(a, b),
{
    let mut acc: u32 = 0;
    let mut x: u32 = a as u32;
    let mut y: u16 = b as u16;
    proof {
        let c = byte_product(a, b);
        assert(0 ^ c == c) by (bit_vector);
    }
    for i in 0..8u32
        invariant
            acc ^ clmul::carryless(x, y, (8 - i) as nat) == byte_product(a, b),
    {
        proof {
            let rest = clmul::carryless(x << 1, y >> 1, (8 - i - 1) as nat);
            assert(acc ^ (x ^ rest) == (acc ^ x) ^ rest && acc ^ (0 ^ rest) == acc ^ rest)
                by (bit_vector);
        }
        if y & 1 == 1 {
            acc = acc ^ x;
        }
        x = x << 1;
        y = y >> 1;
    }
    proof {
        assert(acc ^ 0 == acc) by (bit_vector);
    }
    acc
}

/// Multiply two elements by three products of bytes and Barrett reduction.
pub fn gf_mul_pmull(a: u16, scalar: u16) -> (r: u16)
    ensures
        r == field::product(a, scalar),
{
    let al: u8 = (a & 0xff) as u8;
    let ah: u8 = (a >> 8) as u8;
    let sl: u8 = (scalar & 0xff) as u8;
    let sh: u8 = (scalar >> 8) as u8;
    let low: u32 = multiply_bytes(al, sl);
    let mid: u32 = multiply_bytes(al ^ ah, sl ^ sh);
    let high: u32 = multiply_bytes(ah, sh);
    proof {
        lemma_karatsuba(a, scalar);
        clmul::lemma_barrett_of_product(a, scalar);
    }
    clmul::barrett_reduce(low ^ ((mid ^ low ^ high) << 8) ^ (high << 16))
}

/// Multiply all elements by a scalar through tables.
pub fn gf_mul_slice_neon(scalar: u16, data: &mut [u16])
    ensures
        final(data)@ == bulk::mul_each(old(data)@, scalar),
{
    batch::mul_slice_table(scalar, data);
}

/// Multiply all elements by a scalar by products of bytes.
pub fn gf_mul_slice_pmull_neon(scalar: u16, data: &mut [u16])
    ensures
        final(data)@ == bulk::mul_each(old(data)@, scalar),
{
    let n: usize = data.len();
    for i in 0..n
        invariant
            n == old(data)@.len(),
            data@.len() == n,
            forall|j: int|
                0 <= j < i ==> #[trigger] data@[j] == field::product(old(data)@[j], scalar),
            forall|j: int| i <= j < n ==> #[trigger] data@[j] == old(data)@[j],
    {
        data[i] = gf_mul_pmull(data[i], scalar);
    }
    assert(data@ =~= bulk::mul_each(old(data)@, scalar));
}

/// Add a multiple of one slice to another, as far as both reach.
pub fn gf_muladd_pmull_neon(dst: &mut [u16], src: &[u16], scalar: u16)
    ensures
        final(dst)@ == bulk::add_scaled(old(dst)@, src@, scalar),
{
    let n: usize = if dst.len() <= src.len() {
        dst.len()
    } else {
        src.len()
    };
    for i in 0..n
        invariant
            n <= src@.len(),
            n <= dst@.len(),
            n == dst@.len() || n == src@.len(),
            dst@.len() == old(dst)@.len(),
            forall|j: int|
                0 <= j < i ==> #[trigger] dst@[j] == old(dst)@[j] ^ field::product(src@[j], scalar),
            forall|j: int| i <= j < dst@.len() ==> #[trigger] dst@[j] == old(dst)@[j],
    {
        dst[i] = dst[i] ^ gf_mul_pmull(src[i], scalar);
    }
    assert(dst@ =~= bulk::add_scaled(old(dst)@, src@, scalar));
}

/// Add several sources, each times its coefficient, to a slice. The products of an element with all
/// sources are added up before the slice is touched.
pub fn gf_muladd_multi_pmull_neon(dst: &mut [u16], sources: &[&[u16]], coefficients: &[u16])
    requires
        sources@.len() == coefficients@.len(),
        forall|s: int| 0 <= s < sources@.len() ==> (#[trigger] sources@[s])@.len() == old(dst)@.len(),
    ensures
        final(dst)@ == bulk::add_weighted(
            old(dst)@,
            bulk::slice_views(sources@),
            coefficients@,
        ),
{
    let n: usize = sources.len();
    let m: usize = dst.len();
    let ghost views = bulk::slice_views(sources@);
    for i in 0..m
        invariant
            n == sources@.len(),
            n == coefficients@.len(),
            m == dst@.len(),
            m == old(dst)@.len(),
            views == bulk::slice_views(sources@),
            forall|s: int| 0 <= s < n ==> (#[trigger] sources@[s])@.len() == m,
            forall|j: int|
                0 <= j < i ==> #[trigger] dst@[j] == old(dst)@[j] ^ bulk::weighted_sum(
                    views,
                    coefficients@,
                    n as nat,
                    j,
                ),
            forall|j: int| i <= j < m ==> #[trigger] dst@[j] == old(dst)@[j],
    {
        let mut sum: u16 = 0;
        let ghost f = |s: int| bulk::term(views, coefficients@, s, i as int);
        for s in 0..n
            invariant
                n == sources@.len(),
                n == coefficients@.len(),
                i < m,
                views == bulk::slice_views(sources@),
                forall|t: int| 0 <= t < n ==> (#[trigger] sources@[t])@.len() == m,
                f == (|t: int| bulk::term(views, coefficients@, t, i as int)),
                sum == sums::xor_sum(f, s as nat),
        {
            assert(sources@[s as int]@.len() == m);
            let source: &[u16] = sources[s];
            let product: u16 = gf_mul_pmull(source[i], coefficients[s]);
            assert(f(s as int) == product);
            sum = sum ^ product;
        }
        dst[i] = dst[i] ^ sum;
    }
    assert(dst@ =~= bulk::add_weighted(old(dst)@, views, coefficients@));
}

/// Add multiples of one source to several rows, at most 8.
pub fn gf_muladd_column_neon(destinations: &mut [Vec<u16>], source: &[u16], coefficients: &[u16])
    requires
        old(destinations)@.len() <= 8,
        old(destinations)@.len() == coefficients@.len(),
        forall|d: int|
            0 <= d < old(destinations)@.len() ==> (#[trigger] old(destinations)@[d])@.len()
                == source@.len(),
    ensures
        final(destinations)@.len() == old(destinations)@.len(),
        forall|d: int|
            0 <= d < old(destinations)@.len() ==> #[trigger] final(destinations)@[d]@
                == bulk::add_scaled(old(destinations)@[d]@, source@, coefficients@[d]),
{
    let m: usize = destinations.len();
    for d in 0..m
        invariant
            m == destinations@.len(),
            m == old(destinations)@.len(),
            m == coefficients@.len(),
            forall|k: int|
                0 <= k < d ==> #[trigger] destinations@[k]@ == bulk::add_scaled(
                    old(destinations)@[k]@,
                    source@,
                    coefficients@[k],
                ),
            forall|k: int|
                d <= k < m ==> #[trigger] destinations@[k]@ == old(destinations)@[k]@,
    {
        gf_muladd_pmull_neon(destinations[d].as_mut_slice(), source, coefficients[d]);
    }
}

/// Read bytes as little-endian elements.
pub fn bytes_to_u16_neon(bytes: &[u8], output: &mut [u16])
    requires
        bytes@.len() == 2 * old(output)@.len(),
    ensures
        final(output)@ == bulk::words(bytes@),
{
    ops::bytes_to_u16_simd(bytes, output);
}

} // verus!
