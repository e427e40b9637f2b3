//! The shuffle2x layout: within each block of 16 elements, the 16 lower bytes come first and the 16
//! upper bytes follow. Elements after the last full block keep their place.

use vstd::prelude::*;

use crate::galois::bulk;
use crate::galois::element::gf_mul;
use crate::galois::field;
use crate::galois::simd::lut::Multiply128Lut;
use crate::galois::sums;

verus! {

/// The number of elements in full blocks.
pub open spec fn blocked(n: nat) -> nat {
    16 * (n / 16)
}

pub open spec fn low(w: u16) -> u8 {
    (w & 0xff) as u8
}

pub open spec fn high(w: u16) -> u8 {
    (w >> 8) as u8
}

/// Element `i` of the shuffle2x layout of `d`.
pub open spec fn shuffled_at(d: Seq<u16>, i: int) -> u16 {
    let b = 16 * (i / 16);
    let k = i % 16;
    if i >= blocked(d.len()) {
        d[i]
    } else if k < 8 {
        bulk::word(low(d[b + 2 * k]), low(d[b + 2 * k + 1]))
    } else {
        bulk::word(high(d[b + 2 * (k - 8)]), high(d[b + 2 * (k - 8) + 1]))
    }
}

/// The shuffle2x layout of `d`.
pub open spec fn shuffled(d: Seq<u16>) -> Seq<u16> {
    Seq::new(d.len(), |i: int| shuffled_at(d, i))
}

/// Element `i` of what has the shuffle2x layout `d`.
pub open spec fn unshuffled_at(d: Seq<u16>, i: int) -> u16 {
    let b = 16 * (i / 16);
    let k = i % 16;
    if i >= blocked(d.len()) {
        d[i]
    } else if k % 2 == 0 {
        bulk::word(low(d[b + k / 2]), low(d[b + 8 + k / 2]))
    } else {
        bulk::word(high(d[b + k / 2]), high(d[b + 8 + k / 2]))
    }
}

/// What has the shuffle2x layout `d`.
pub open spec fn unshuffled(d: Seq<u16>) -> Seq<u16> {
    Seq::new(d.len(), |i: int| unshuffled_at(d, i))
}

/// The shuffle2x layout of `c` times what has the shuffle2x layout `src`.
pub open spec fn shuffled_product(src: Seq<u16>, c: u16) -> Seq<u16> {
    shuffled(bulk::mul_each(unshuffled(src), c))
}

/// `dst` with `c` times `src` added, both in the shuffle2x layout, as far as both reach.
pub open spec fn add_shuffled(dst: Seq<u16>, src: Seq<u16>, c: u16) -> Seq<u16> {
    let n = if dst.len() <= src.len() {
        dst.len()
    } else {
        src.len()
    };
    Seq::new(
        dst.len(),
        |i: int|
            if i < n {
                dst[i] ^ shuffled_product(src.take(n as int), c)[i]
            } else {
                dst[i]
            },
    )
}

/// The sum over the first `n` sources of element `i` of the product of the region, in the
/// shuffle2x layout, with its coefficient.
pub open spec fn shuffled_sum(
    sources: Seq<Seq<u16>>,
    coeffs: Seq<u16>,
    n: nat,
    offset: int,
    size: int,
    i: int,
) -> u16 {
    sums::xor_sum(
        |s: int|
            shuffled_product(sources[s].subrange(offset, offset + size), coeffs[s])[i - offset],
        n,
    )
}

/// `dst` with every source times its coefficient added to the `size` elements from `offset` on,
/// where these are in the shuffle2x layout.
pub open spec fn add_shuffled_region(
    dst: Seq<u16>,
    sources: Seq<Seq<u16>>,
    coeffs: Seq<u16>,
    offset: int,
    size: int,
) -> Seq<u16> {
    Seq::new(
        dst.len(),
        |i: int|
            if offset <= i < offset + size {
                dst[i] ^ shuffled_sum(sources, coeffs, sources.len(), offset, size, i)
            } else {
                dst[i]
            },
    )
}

proof fn lemma_low_high(a: u8, b: u8, w: u16)
    ensures
        low(bulk::word(a, b)) == a,
        high(bulk::word(a, b)) == b,
        bulk::word(low(w), high(w)) == w,
{
    bulk::lemma_word(a, b, w);
}

/// Undoing the shuffle2x layout gives back what was laid out.
pub proof fn law_unshuffle_shuffled(d: Seq<u16>)
    ensures
        unshuffled(shuffled(d)) == d,
{
    let s = shuffled(d);
    assert forall|i: int| 0 <= i < d.len() implies unshuffled(s)[i] == d[i] by {
        if i < blocked(d.len()) {
            let b = 16 * (i / 16);
            let k = i % 16;
            let h = k / 2;
            assert((b + h) / 16 == i / 16 && (b + h) % 16 == h);
            assert((b + 8 + h) / 16 == i / 16 && (b + 8 + h) % 16 == 8 + h);
            assert(b + 8 + h < blocked(d.len()));
            lemma_low_high(low(d[b + 2 * h]), low(d[b + 2 * h + 1]), d[i]);
            lemma_low_high(high(d[b + 2 * h]), high(d[b + 2 * h + 1]), d[i]);
            assert(i == b + 2 * h || i == b + 2 * h + 1);
        }
    }
    assert(unshuffled(s) =~= d);
}

/// Laying out again what a shuffle2x layout was undone to gives that layout.
pub proof fn law_shuffle_unshuffled(d: Seq<u16>)
    ensures
        shuffled(unshuffled(d)) == d,
{
    let u = unshuffled(d);
    assert forall|i: int| 0 <= i < d.len() implies shuffled(u)[i] == d[i] by {
        if i < blocked(d.len()) {
            let b = 16 * (i / 16);
            let k = i % 16;
            let h = if k < 8 {
                k
            } else {
                k - 8
            };
            let x = b + 2 * h;
            assert(x / 16 == i / 16 && x % 16 == 2 * h && (2 * h) / 2 == h && (2 * h) % 2 == 0);
            assert((x + 1) / 16 == i / 16 && (x + 1) % 16 == 2 * h + 1 && (2 * h + 1) / 2 == h && (2
                * h + 1) % 2 == 1);
            assert(x + 1 < blocked(d.len()));
            lemma_low_high(low(d[b + h]), low(d[b + 8 + h]), d[i]);
            lemma_low_high(high(d[b + h]), high(d[b + 8 + h]), d[i]);
        }
    }
    assert(shuffled(u) =~= d);
}

/// Adding in the shuffle2x layout and undoing the layout is adding without it.
pub proof fn law_add_shuffled(dst: Seq<u16>, src: Seq<u16>, c: u16)
    requires
        dst.len() == src.len(),
    ensures
        unshuffled(add_shuffled(shuffled(dst), shuffled(src), c)) == bulk::add_scaled(dst, src, c),
{
    let n = dst.len();
    let sd = shuffled(dst);
    let ss = shuffled(src);
    assert(ss.take(n as int) =~= ss);
    law_unshuffle_shuffled(src);
    let prod = bulk::mul_each(src, c);
    let sum = add_shuffled(sd, ss, c);
    let plain = bulk::add_scaled(dst, src, c);
    assert forall|i: int| 0 <= i < n implies sum[i] == shuffled(plain)[i] by {
        assert(sum[i] == sd[i] ^ shuffled(prod)[i]);
        if i < blocked(n) {
            let b = 16 * (i / 16);
            let k = i % 16;
            let h = if k < 8 {
                k
            } else {
                k - 8
            };
            let x = b + 2 * h;
            let d0 = dst[x];
            let d1 = dst[x + 1];
            let p0 = prod[x];
            let p1 = prod[x + 1];
            assert(plain[x] == d0 ^ p0 && plain[x + 1] == d1 ^ p1);
            assert(bulk::word(low(d0), low(d1)) ^ bulk::word(low(p0), low(p1)) == bulk::word(
                low(d0 ^ p0),
                low(d1 ^ p1),
            ) && bulk::word(high(d0), high(d1)) ^ bulk::word(high(p0), high(p1)) == bulk::word(
                high(d0 ^ p0),
                high(d1 ^ p1),
            )) by (bit_vector);
        }
    }
    assert(sum =~= shuffled(plain));
    law_unshuffle_shuffled(plain);
}

/// Convert elements to the shuffle2x layout, in place.
pub fn prepare(data: &mut [u16])
    ensures
        final(data)@ == shuffled(old(data)@),
{
    let copy: Vec<u16> = vstd::slice::slice_to_vec(data);
    let full: usize = data.len() / 16 * 16;
    for i in 0..full
        invariant
            data@.len() == copy@.len(),
            copy@ == old(data)@,
            full == blocked(copy@.len()),
            full <= copy@.len(),
            forall|j: int| 0 <= j < i ==> #[trigger] data@[j] == shuffled_at(copy@, j),
            forall|j: int| i <= j < data@.len() ==> #[trigger] data@[j] == copy@[j],
    {
        let b: usize = i / 16 * 16;
        let k: usize = i % 16;
        if k < 8 {
            let x: u16 = copy[b + 2 * k];
            let y: u16 = copy[b + 2 * k + 1];
            data[i] = (((x & 0xff) as u8) as u16) | ((((y & 0xff) as u8) as u16) << 8);
        } else {
            let x: u16 = copy[b + 2 * (k - 8)];
            let y: u16 = copy[b + 2 * (k - 8) + 1];
            data[i] = (((x >> 8) as u8) as u16) | ((((y >> 8) as u8) as u16) << 8);
        }
    }
    assert(data@ =~= shuffled(old(data)@));
}

/// Convert elements back from the shuffle2x layout, in place.
pub fn finish(data: &mut [u16])
    ensures
        final(data)@ == unshuffled(old(data)@),
{
    let copy: Vec<u16> = vstd::slice::slice_to_vec(data);
    let full: usize = data.len() / 16 * 16;
    for i in 0..full
        invariant
            data@.len() == copy@.len(),
            copy@ == old(data)@,
            full == blocked(copy@.len()),
            full <= copy@.len(),
            forall|j: int| 0 <= j < i ==> #[trigger] data@[j] == unshuffled_at(copy@, j),
            forall|j: int| i <= j < data@.len() ==> #[trigger] data@[j] == copy@[j],
    {
        let b: usize = i / 16 * 16;
        let k: usize = i % 16;
        let x: u16 = copy[b + k / 2];
        let y: u16 = copy[b + 8 + k / 2];
        if k % 2 == 0 {
            data[i] = (((x & 0xff) as u8) as u16) | ((((y & 0xff) as u8) as u16) << 8);
        } else {
            data[i] = (((x >> 8) as u8) as u16) | ((((y >> 8) as u8) as u16) << 8);
        }
    }
    assert(data@ =~= unshuffled(old(data)@));
}

/// Add `c` times the `size` elements of `src` from `offset` on to those of `dst`, all of them in
/// the shuffle2x layout.
pub fn muladd_stretch(dst: &mut [u16], src: &[u16], c: u16, offset: usize, size: usize)
    requires
        offset + size <= old(dst)@.len(),
        offset + size <= src@.len(),
    ensures
        final(dst)@ == Seq::new(
            old(dst)@.len(),
            |i: int|
                if offset <= i < offset + size {
                    old(dst)@[i] ^ shuffled_product(
                        src@.subrange(offset as int, offset + size),
                        c,
                    )[i - offset]
                } else {
                    old(dst)@[i]
                },
        ),
{
    let lut = Multiply128Lut::new(c);
    let full: usize = size / 16 * 16;
    let reach: usize = src.len();
    let ghost part = src@.subrange(offset as int, offset + size);
    let ghost prod = shuffled_product(part, c);
    assert(offset + size <= reach);
    let blocks: usize = size / 16;
    for block in 0..blocks
        invariant
            lut.is_for(c),
            full == blocked(size as nat),
            full <= size,
            blocks == size / 16,
            offset + size <= reach,
            dst@.len() == old(dst)@.len(),
            offset + size <= dst@.len(),
            offset + size <= src@.len(),
            part == src@.subrange(offset as int, offset + size),
            prod == shuffled_product(part, c),
            forall|j: int|
                0 <= j < 16 * block ==> #[trigger] dst@[offset + j] == old(dst)@[offset + j]
                    ^ prod[j],
            forall|j: int|
                0 <= j < offset || offset + 16 * block <= j < dst@.len() ==> #[trigger] dst@[j]
                    == old(dst)@[j],
    {
        let b: usize = 16 * block;
        for k in 0..8usize
            invariant
                lut.is_for(c),
                full == blocked(size as nat),
                full <= size,
                block < blocks,
                blocks == size / 16,
                b == 16 * block,
                offset + size <= reach,
                dst@.len() == old(dst)@.len(),
                offset + size <= dst@.len(),
                offset + size <= src@.len(),
                part == src@.subrange(offset as int, offset + size),
                prod == shuffled_product(part, c),
                forall|j: int|
                    0 <= j < b || b <= j < b + k || b + 8 <= j < b + 8 + k
                        ==> #[trigger] dst@[offset + j] == old(dst)@[offset + j] ^ prod[j],
                forall|j: int|
                    0 <= j < offset || offset + b + k <= j < offset + b + 8 || offset + b + 8 + k
                        <= j < dst@.len() ==> #[trigger] dst@[j] == old(dst)@[j],
        {
            let u: u16 = src[offset + b + k];
            let v: u16 = src[offset + b + 8 + k];
            let e0: u16 = (((u & 0xff) as u8) as u16) | ((((v & 0xff) as u8) as u16) << 8);
            let e1: u16 = (((u >> 8) as u8) as u16) | ((((v >> 8) as u8) as u16) << 8);
            let p0: u16 = lut.mul(e0);
            let p1: u16 = lut.mul(e1);
            let lower: u16 = (((p0 & 0xff) as u8) as u16) | ((((p1 & 0xff) as u8) as u16) << 8);
            let upper: u16 = (((p0 >> 8) as u8) as u16) | ((((p1 >> 8) as u8) as u16) << 8);
            proof {
                let x = b + 2 * k;
                assert(part[b + k] == u && part[b + 8 + k] == v);
                assert(x / 16 == block && x % 16 == 2 * k);
                assert((x + 1) / 16 == block && (x + 1) % 16 == 2 * k + 1);
                assert((b + k) / 16 == block as int && (b + k) % 16 == k as int);
                assert((b + 8 + k) / 16 == block as int && (b + 8 + k) % 16 == 8 + k);
                assert(unshuffled(part)[x as int] == e0);
                assert(unshuffled(part)[x + 1] == e1);
                assert(prod[b + k] == lower);
                assert(prod[b + 8 + k] == upper);
            }
            dst[offset + b + k] = dst[offset + b + k] ^ lower;
            dst[offset + b + 8 + k] = dst[offset + b + 8 + k] ^ upper;
        }
    }
    for i in full..size
        invariant
            full == blocked(size as nat),
            full <= size,
            offset + size <= reach,
            dst@.len() == old(dst)@.len(),
            offset + size <= dst@.len(),
            offset + size <= src@.len(),
            part == src@.subrange(offset as int, offset + size),
            prod == shuffled_product(part, c),
            forall|j: int|
                0 <= j < i ==> #[trigger] dst@[offset + j] == old(dst)@[offset + j] ^ prod[j],
            forall|j: int|
                0 <= j < offset || offset + i <= j < dst@.len() ==> #[trigger] dst@[j] == old(
                    dst,
                )@[j],
    {
        assert(prod[i as int] == field::product(src@[offset + i], c));
        dst[offset + i] = dst[offset + i] ^ gf_mul(src[offset + i], c);
    }
    proof {
        let want = Seq::new(
            old(dst)@.len(),
            |i: int|
                if offset <= i < offset + size {
                    old(dst)@[i] ^ prod[i - offset]
                } else {
                    old(dst)@[i]
                },
        );
        assert forall|i: int| 0 <= i < dst@.len() implies #[trigger] dst@[i] == want[i] by {
            if offset <= i < offset + size {
                assert(dst@[offset + (i - offset)] == old(dst)@[offset + (i - offset)] ^ prod[i
                    - offset]);
            }
        }
        assert(dst@ =~= want);
    }
}

/// Multiply and add on elements in the shuffle2x layout, as far as both slices reach.
pub fn muladd(dst: &mut [u16], src: &[u16], scalar: u16)
    ensures
        final(dst)@ == add_shuffled(old(dst)@, src@, scalar),
{
    let n: usize = if dst.len() <= src.len() {
        dst.len()
    } else {
        src.len()
    };
    muladd_stretch(dst, src, scalar, 0, n);
    assert(src@.subrange(0, n as int) =~= src@.take(n as int));
    assert(dst@ =~= add_shuffled(old(dst)@, src@, scalar));
}

} // verus!
