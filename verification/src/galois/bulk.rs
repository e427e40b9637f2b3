//! What the operations on whole slices of field elements compute.

use vstd::prelude::*;

use crate::galois::field;
use crate::galois::sums;

verus! {

/// The element whose little-endian bytes are `lo` and `hi`.
pub open spec fn word(lo: u8, hi: u8) -> u16 {
    (lo as u16) | ((hi as u16) << 8)
}

/// The elements that the bytes hold, two bytes to an element. An odd byte at the end is left out.
pub open spec fn words(bytes: Seq<u8>) -> Seq<u16> {
    Seq::new(bytes.len() / 2, |i: int| word(bytes[2 * i], bytes[2 * i + 1]))
}

/// The little-endian bytes of the elements.
pub open spec fn word_bytes(ws: Seq<u16>) -> Seq<u8> {
    Seq::new(
        2 * ws.len(),
        |i: int|
            if i % 2 == 0 {
                (ws[i / 2] & 0xff) as u8
            } else {
                (ws[i / 2] >> 8) as u8
            },
    )
}

pub proof fn lemma_word(lo: u8, hi: u8, w: u16)
    ensures
        (word(lo, hi) & 0xff) as u8 == lo,
        (word(lo, hi) >> 8) as u8 == hi,
        word((w & 0xff) as u8, (w >> 8) as u8) == w,
        w as u8 == (w & 0xff) as u8,
{
    assert((word(lo, hi) & 0xff) as u8 == lo && (word(lo, hi) >> 8) as u8 == hi && word(
        (w & 0xff) as u8,
        (w >> 8) as u8,
    ) == w && w as u8 == (w & 0xff) as u8) by (bit_vector);
}

/// Writing elements out as bytes and reading them back gives the same elements.
pub proof fn law_words_of_bytes(ws: Seq<u16>)
    ensures
        words(word_bytes(ws)) == ws,
{
    assert forall|i: int| 0 <= i < ws.len() implies words(word_bytes(ws))[i] == ws[i] by {
        lemma_word(0, 0, ws[i]);
        assert((2 * i) / 2 == i && (2 * i + 1) / 2 == i);
    }
    assert(words(word_bytes(ws)) =~= ws);
}

/// Reading an even number of bytes as elements and writing them out gives the same bytes.
pub proof fn law_bytes_of_words(bytes: Seq<u8>)
    requires
        bytes.len() % 2 == 0,
    ensures
        word_bytes(words(bytes)) == bytes,
{
    assert forall|i: int| 0 <= i < bytes.len() implies word_bytes(words(bytes))[i] == bytes[i] by {
        let j = i / 2;
        lemma_word(bytes[2 * j], bytes[2 * j + 1], 0);
        assert(i == 2 * j || i == 2 * j + 1);
    }
    assert(word_bytes(words(bytes)) =~= bytes);
}

/// Every element times `c`.
pub open spec fn mul_each(data: Seq<u16>, c: u16) -> Seq<u16> {
    Seq::new(data.len(), |i: int| field::product(data[i], c))
}

/// `dst` with `c` times the element of `src` added to each element, as far as `src` reaches.
pub open spec fn add_scaled(dst: Seq<u16>, src: Seq<u16>, c: u16) -> Seq<u16> {
    Seq::new(
        dst.len(),
        |i: int|
            if i < src.len() {
                dst[i] ^ field::product(src[i], c)
            } else {
                dst[i]
            },
    )
}

/// What source `s` adds to element `i` under the coefficients `coeffs`.
pub open spec fn term(sources: Seq<Seq<u16>>, coeffs: Seq<u16>, s: int, i: int) -> u16 {
    if i < sources[s].len() {
        field::product(sources[s][i], coeffs[s])
    } else {
        0
    }
}

/// The sum over the first `n` sources of element `i` of each, times its coefficient.
pub open spec fn weighted_sum(sources: Seq<Seq<u16>>, coeffs: Seq<u16>, n: nat, i: int) -> u16 {
    sums::xor_sum(|s: int| term(sources, coeffs, s, i), n)
}

/// The number of sources that have a coefficient.
pub open spec fn paired(sources: Seq<Seq<u16>>, coeffs: Seq<u16>) -> nat {
    if sources.len() <= coeffs.len() {
        sources.len()
    } else {
        coeffs.len()
    }
}

/// `dst` with every source times its coefficient added.
pub open spec fn add_weighted(
    dst: Seq<u16>,
    sources: Seq<Seq<u16>>,
    coeffs: Seq<u16>,
) -> Seq<u16> {
    Seq::new(
        dst.len(),
        |i: int| dst[i] ^ weighted_sum(sources, coeffs, paired(sources, coeffs), i),
    )
}

/// `dst` with every source times its coefficient added to the `size` elements from `offset` on.
pub open spec fn add_weighted_region(
    dst: Seq<u16>,
    sources: Seq<Seq<u16>>,
    coeffs: Seq<u16>,
    offset: int,
    size: int,
) -> Seq<u16> {
    Seq::new(
        dst.len(),
        |i: int|
            if offset <= i < offset + size {
                dst[i] ^ weighted_sum(sources, coeffs, paired(sources, coeffs), i)
            } else {
                dst[i]
            },
    )
}

/// The contents of slices.
pub open spec fn slice_views(s: Seq<&[u16]>) -> Seq<Seq<u16>> {
    Seq::new(s.len(), |i: int| s[i]@)
}

/// The contents of vectors.
pub open spec fn row_views(s: Seq<Vec<u16>>) -> Seq<Seq<u16>> {
    Seq::new(s.len(), |i: int| s[i]@)
}

/// The first `n + 1` sources add what the first `n` add, and what source `n` adds.
pub proof fn lemma_weighted_sum_next(sources: Seq<Seq<u16>>, coeffs: Seq<u16>, n: nat, i: int)
    ensures
        weighted_sum(sources, coeffs, n + 1, i) == weighted_sum(sources, coeffs, n, i) ^ term(
            sources,
            coeffs,
            n as int,
            i,
        ),
{
    let f = |s: int| term(sources, coeffs, s, i);
    assert(sums::xor_sum(f, n + 1) == sums::xor_sum(f, n) ^ f(n as int));
}

/// The operations on slices, element by element.
pub proof fn law_slices_element_by_element(
    dst: Seq<u16>,
    src: Seq<u16>,
    c: u16,
    sources: Seq<Seq<u16>>,
    coeffs: Seq<u16>,
    n: nat,
    i: int,
)
    requires
        0 <= i < dst.len(),
        sources.len() == coeffs.len(),
    ensures
        mul_each(dst, c).len() == dst.len(),
        mul_each(dst, c)[i] == field::product(dst[i], c),
        add_scaled(dst, src, c).len() == dst.len(),
        add_scaled(dst, src, c)[i] == (if i < src.len() {
            dst[i] ^ field::product(src[i], c)
        } else {
            dst[i]
        }),
        add_weighted(dst, sources, coeffs).len() == dst.len(),
        add_weighted(dst, sources, coeffs)[i] == dst[i] ^ weighted_sum(
            sources,
            coeffs,
            sources.len(),
            i,
        ),
        weighted_sum(sources, coeffs, 0, i) == 0,
        n < sources.len() ==> weighted_sum(sources, coeffs, n + 1, i) == weighted_sum(
            sources,
            coeffs,
            n,
            i,
        ) ^ (if i < sources[n as int].len() {
            field::product(sources[n as int][i], coeffs[n as int])
        } else {
            0u16
        }),
{
    lemma_weighted_sum_next(sources, coeffs, n, i);
}

/// What is added to a region, element by element: nothing outside of it.
pub proof fn law_regions_element_by_element(
    dst: Seq<u16>,
    sources: Seq<Seq<u16>>,
    coeffs: Seq<u16>,
    offset: int,
    size: int,
    i: int,
)
    requires
        0 <= i < dst.len(),
        sources.len() == coeffs.len(),
    ensures
        add_weighted_region(dst, sources, coeffs, offset, size).len() == dst.len(),
        add_weighted_region(dst, sources, coeffs, offset, size)[i] == (if offset <= i < offset
            + size {
            dst[i] ^ weighted_sum(sources, coeffs, sources.len(), i)
        } else {
            dst[i]
        }),
{
}

} // verus!
