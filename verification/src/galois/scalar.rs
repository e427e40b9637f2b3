//! Operations on slices of field elements, one element after the other.

use vstd::prelude::*;

use crate::galois::bulk;
use crate::galois::element::gf_mul;
use crate::galois::field;

verus! {

/// Multiply every element of a slice by a scalar.
pub fn gf_mul_slice_scalar(scalar: u16, data: &mut [u16])
    ensures
        final(data)@ == bulk::mul_each(old(data)@, scalar),
{
    let n: usize = data.len();
    for i in 0..n
        invariant
            n == old(data)@.len(),
            data@.len() == n,
            forall|j: int|
                0 <= j < i ==> #[trigger] data@[j] == field::product(old(data)@[j], scalar),
            forall|j: int| i <= j < n ==> #[trigger] data@[j] == old(data)@[j],
    {
        data[i] = gf_mul(data[i], scalar);
    }
    assert(data@ =~= bulk::mul_each(old(data)@, scalar));
}

/// Multiply and add: `dst[i] ^= src[i] * scalar`, as far as both slices reach.
pub fn gf_muladd_scalar(dst: &mut [u16], src: &[u16], scalar: u16)
    ensures
        final(dst)@ == bulk::add_scaled(old(dst)@, src@, scalar),
{
    let n: usize = if dst.len() <= src.len() {
        dst.len()
    } else {
        src.len()
    };
    for i in 0..n
        invariant
            n <= old(dst)@.len(),
            n <= src@.len(),
            dst@.len() == old(dst)@.len(),
            forall|j: int|
                0 <= j < i ==> #[trigger] dst@[j] == old(dst)@[j] ^ field::product(src@[j], scalar),
            forall|j: int| i <= j < dst@.len() ==> #[trigger] dst@[j] == old(dst)@[j],
    {
        dst[i] = dst[i] ^ gf_mul(src[i], scalar);
    }
    assert(dst@ =~= bulk::add_scaled(old(dst)@, src@, scalar));
}

/// Add a multiple of one source to each of several rows: `destinations[r] ^= source *
/// coefficients[r]`.
pub fn gf_muladd_column_scalar(destinations: &mut [Vec<u16>], source: &[u16], coefficients: &[u16])
    ensures
        final(destinations)@.len() == old(destinations)@.len(),
        forall|r: int|
            0 <= r < old(destinations)@.len() ==> #[trigger] final(destinations)@[r]@ == (if r
                < coefficients@.len() {
                bulk::add_scaled(old(destinations)@[r]@, source@, coefficients@[r])
            } else {
                old(destinations)@[r]@
            }),
{
    let n: usize = if destinations.len() <= coefficients.len() {
        destinations.len()
    } else {
        coefficients.len()
    };
    for r in 0..n
        invariant
            n <= coefficients@.len(),
            n <= destinations@.len(),
            n == destinations@.len() || n == coefficients@.len(),
            destinations@.len() == old(destinations)@.len(),
            forall|k: int|
                0 <= k < r ==> #[trigger] destinations@[k]@ == bulk::add_scaled(
                    old(destinations)@[k]@,
                    source@,
                    coefficients@[k],
                ),
            forall|k: int|
                r <= k < destinations@.len() ==> #[trigger] destinations@[k]@ == old(
                    destinations,
                )@[k]@,
    {
        if coefficients[r] != 0 {
            gf_muladd_scalar(destinations[r].as_mut_slice(), source, coefficients[r]);
        } else {
            proof {
                lemma_add_scaled_zero(destinations@[r as int]@, source@);
            }
        }
    }
}

/// Adding zero times a source changes nothing.
pub proof fn lemma_add_scaled_zero(dst: Seq<u16>, src: Seq<u16>)
    ensures
        bulk::add_scaled(dst, src, 0) == dst,
{
    assert forall|i: int| 0 <= i < dst.len() implies bulk::add_scaled(dst, src, 0)[i] == dst[i] by {
        if i < src.len() {
            field::law_product_zero(src[i]);
            field::law_xor(dst[i], 0, 0);
        }
    }
    assert(bulk::add_scaled(dst, src, 0) =~= dst);
}

/// Add several sources, each times its coefficient, to one row: `dst ^= sum of sources[s] *
/// coefficients[s]`.
pub fn gf_muladd_multi_scalar(dst: &mut [u16], sources: &[&[u16]], coefficients: &[u16])
    requires
        forall|s: int|
            0 <= s < sources@.len() && s < coefficients@.len() && coefficients@[s] != 0
                ==> old(dst)@.len() <= (#[trigger] sources@[s])@.len(),
    ensures
        final(dst)@ == bulk::add_weighted(
            old(dst)@,
            bulk::slice_views(sources@),
            coefficients@,
        ),
{
    let n: usize = if sources.len() <= coefficients.len() {
        sources.len()
    } else {
        coefficients.len()
    };
    let m: usize = dst.len();
    let ghost views = bulk::slice_views(sources@);
    for i in 0..m
        invariant
            n <= sources@.len(),
            n <= coefficients@.len(),
            n == bulk::paired(views, coefficients@),
            views == bulk::slice_views(sources@),
            m == old(dst)@.len(),
            dst@.len() == m,
            forall|s: int|
                0 <= s < sources@.len() && s < coefficients@.len() && coefficients@[s] != 0
                    ==> m <= (#[trigger] sources@[s])@.len(),
            forall|j: int|
                0 <= j < i ==> #[trigger] dst@[j] == old(dst)@[j] ^ bulk::weighted_sum(
                    views,
                    coefficients@,
                    n as nat,
                    j,
                ),
            forall|j: int| i <= j < m ==> #[trigger] dst@[j] == old(dst)@[j],
    {
        let mut accum: u16 = dst[i];
        proof {
            field::law_xor(accum, 0, 0);
        }
        for s in 0..n
            invariant
                n <= sources@.len(),
                n <= coefficients@.len(),
                views == bulk::slice_views(sources@),
                i < m,
                forall|s: int|
                    0 <= s < sources@.len() && s < coefficients@.len() && coefficients@[s] != 0
                        ==> m <= (#[trigger] sources@[s])@.len(),
                accum == old(dst)@[i as int] ^ bulk::weighted_sum(
                    views,
                    coefficients@,
                    s as nat,
                    i as int,
                ),
        {
            proof {
                let before = bulk::weighted_sum(views, coefficients@, s as nat, i as int);
                let t = bulk::term(views, coefficients@, s as int, i as int);
                bulk::lemma_weighted_sum_next(views, coefficients@, s as nat, i as int);
                field::law_xor(old(dst)@[i as int], before, t);
                field::law_xor(accum, 0, 0);
                assert(views[s as int] == sources@[s as int]@);
                if i < views[s as int].len() {
                    field::law_product_zero(views[s as int][i as int]);
                    field::law_product_zero(coefficients@[s as int]);
                }
            }
            let coeff: u16 = coefficients[s];
            if coeff != 0 {
                let src: u16 = sources[s][i];
                if src != 0 {
                    accum = accum ^ gf_mul(src, coeff);
                }
            }
        }
        dst[i] = accum;
    }
    assert(dst@ =~= bulk::add_weighted(old(dst)@, views, coefficients@));
}

/// Add one source times a coefficient to the `size` elements of a row from `offset` on.
fn muladd_stretch(dst: &mut Vec<u16>, src: &[u16], coeff: u16, offset: usize, size: usize)
    requires
        offset + size <= old(dst)@.len(),
        offset + size <= src@.len(),
    ensures
        final(dst)@ == Seq::new(
            old(dst)@.len(),
            |i: int|
                if offset <= i < offset + size {
                    old(dst)@[i] ^ field::product(src@[i], coeff)
                } else {
                    old(dst)@[i]
                },
        ),
{
    let reach: usize = src.len();
    assert(offset + size <= reach);
    for i in offset..offset + size
        invariant
            offset + size <= dst@.len(),
            offset + size <= src@.len(),
            dst@.len() == old(dst)@.len(),
            forall|j: int|
                offset <= j < i ==> #[trigger] dst@[j] == old(dst)@[j] ^ field::product(
                    src@[j],
                    coeff,
                ),
            forall|j: int|
                (0 <= j < offset || i <= j < dst@.len()) ==> #[trigger] dst@[j] == old(dst)@[j],
    {
        let value: u16 = gf_mul(src[i], coeff);
        let sum: u16 = dst[i] ^ value;
        dst.set(i, sum);
    }
    assert(dst@ =~= Seq::new(
        old(dst)@.len(),
        |i: int|
            if offset <= i < offset + size {
                old(dst)@[i] ^ field::product(src@[i], coeff)
            } else {
                old(dst)@[i]
            },
    ));
}

/// The slices of an operation on a region reach to its end.
pub open spec fn region_fits(
    destinations: Seq<Seq<u16>>,
    sources: Seq<Seq<u16>>,
    coefficients: Seq<Seq<u16>>,
    offset: int,
    size: int,
) -> bool {
    &&& destinations.len() <= coefficients.len()
    &&& forall|d: int|
        0 <= d < destinations.len() ==> offset + size <= (#[trigger] destinations[d]).len()
    &&& forall|d: int, s: int|
        0 <= d < destinations.len() && 0 <= s < sources.len() && s < coefficients[d].len()
            && #[trigger] coefficients[d][s] != 0 ==> offset + size <= sources[s].len()
}

/// Add several sources, each times its coefficient, to the region of one row.
fn muladd_region_row(
    dst: &mut Vec<u16>,
    sources: &[&[u16]],
    coeffs: &[u16],
    offset: usize,
    size: usize,
)
    requires
        offset + size <= old(dst)@.len(),
        forall|s: int|
            0 <= s < sources@.len() && s < coeffs@.len() && #[trigger] coeffs@[s] != 0 ==> offset
                + size <= sources@[s]@.len(),
    ensures
        final(dst)@ == bulk::add_weighted_region(
            old(dst)@,
            bulk::slice_views(sources@),
            coeffs@,
            offset as int,
            size as int,
        ),
{
    let n: usize = if sources.len() <= coeffs.len() {
        sources.len()
    } else {
        coeffs.len()
    };
    let ghost views = bulk::slice_views(sources@);
    proof {
        assert forall|i: int| 0 <= i < dst@.len() implies #[trigger] dst@[i] ^ 0 == dst@[i] by {
            field::law_xor(dst@[i], 0, 0);
        }
    }
    for s in 0..n
        invariant
            n <= sources@.len(),
            n <= coeffs@.len(),
            views == bulk::slice_views(sources@),
            dst@.len() == old(dst)@.len(),
            offset + size <= dst@.len(),
            forall|s: int|
                0 <= s < sources@.len() && s < coeffs@.len() && #[trigger] coeffs@[s] != 0
                    ==> offset + size <= sources@[s]@.len(),
            forall|i: int|
                offset <= i < offset + size ==> #[trigger] dst@[i] == old(dst)@[i]
                    ^ bulk::weighted_sum(views, coeffs@, s as nat, i),
            forall|i: int|
                (0 <= i < offset || offset + size <= i < dst@.len()) ==> #[trigger] dst@[i] == old(
                    dst,
                )@[i],
    {
        let ghost before = dst@;
        let coeff: u16 = coeffs[s];
        if coeff != 0 {
            muladd_stretch(dst, sources[s], coeff, offset, size);
        }
        proof {
            assert forall|i: int| offset <= i < offset + size implies #[trigger] dst@[i] == old(
                dst,
            )@[i] ^ bulk::weighted_sum(views, coeffs@, (s + 1) as nat, i) by {
                let w = bulk::weighted_sum(views, coeffs@, s as nat, i);
                let t = bulk::term(views, coeffs@, s as int, i);
                bulk::lemma_weighted_sum_next(views, coeffs@, s as nat, i);
                field::law_xor(old(dst)@[i], w, t);
                assert(views[s as int] == sources@[s as int]@);
                assert(before[i] == old(dst)@[i] ^ w);
                if coeff == 0 {
                    field::law_product_zero(views[s as int][i]);
                    field::law_xor(before[i], 0, 0);
                    assert(t == 0);
                }
            }
        }
    }
    assert(dst@ =~= bulk::add_weighted_region(
        old(dst)@,
        views,
        coeffs@,
        offset as int,
        size as int,
    ));
}

/// Add several sources, each times its coefficient, to a region of several rows:
/// `destinations[d] ^= sum of sources[s] * coefficients[d][s]` on the `region_size` elements from
/// `region_offset` on.
pub fn gf_muladd_region_scalar(
    destinations: &mut [Vec<u16>],
    sources: &[&[u16]],
    coefficients: &[&[u16]],
    region_offset: usize,
    region_size: usize,
)
    requires
        region_fits(
            bulk::row_views(old(destinations)@),
            bulk::slice_views(sources@),
            bulk::slice_views(coefficients@),
            region_offset as int,
            region_size as int,
        ),
    ensures
        final(destinations)@.len() == old(destinations)@.len(),
        forall|d: int|
            0 <= d < old(destinations)@.len() ==> #[trigger] final(destinations)@[d]@
                == bulk::add_weighted_region(
                old(destinations)@[d]@,
                bulk::slice_views(sources@),
                coefficients@[d]@,
                region_offset as int,
                region_size as int,
            ),
{
    let n: usize = destinations.len();
    let ghost rows = bulk::row_views(old(destinations)@);
    let ghost views = bulk::slice_views(sources@);
    let ghost coeffs = bulk::slice_views(coefficients@);
    for d in 0..n
        invariant
            n == old(destinations)@.len(),
            destinations@.len() == n,
            rows == bulk::row_views(old(destinations)@),
            views == bulk::slice_views(sources@),
            coeffs == bulk::slice_views(coefficients@),
            region_fits(rows, views, coeffs, region_offset as int, region_size as int),
            forall|k: int|
                0 <= k < d ==> #[trigger] destinations@[k]@ == bulk::add_weighted_region(
                    old(destinations)@[k]@,
                    views,
                    coefficients@[k]@,
                    region_offset as int,
                    region_size as int,
                ),
            forall|k: int|
                d <= k < n ==> #[trigger] destinations@[k]@ == old(destinations)@[k]@,
    {
        proof {
            assert(rows[d as int] == old(destinations)@[d as int]@);
            assert(coeffs[d as int] == coefficients@[d as int]@);
            assert forall|s: int|
                0 <= s < sources@.len() && s < coefficients@[d as int]@.len()
                    && #[trigger] coefficients@[d as int]@[s] != 0 implies region_offset
                + region_size <= sources@[s]@.len() by {
                assert(coeffs[d as int][s] != 0);
                assert(views[s] == sources@[s]@);
            }
        }
        muladd_region_row(
            &mut destinations[d],
            sources,
            coefficients[d],
            region_offset,
            region_size,
        );
    }
}

/// Read bytes as little-endian elements.
pub fn bytes_to_u16_scalar(bytes: &[u8], output: &mut [u16])
    requires
        bytes@.len() == 2 * old(output)@.len(),
    ensures
        final(output)@ == bulk::words(bytes@),
{
    let n: usize = output.len();
    let total: usize = bytes.len();
    for i in 0..n
        invariant
            output@.len() == n,
            bytes@.len() == 2 * n,
            total == 2 * n,
            forall|j: int|
                0 <= j < i ==> #[trigger] output@[j] == bulk::word(
                    bytes@[2 * j],
                    bytes@[2 * j + 1],
                ),
    {
        output[i] = (bytes[2 * i] as u16) | ((bytes[2 * i + 1] as u16) << 8);
    }
    assert(output@ =~= bulk::words(bytes@));
}

/// Write elements as little-endian bytes.
pub fn u16_to_bytes_scalar(input: &[u16], bytes: &mut [u8])
    requires
        old(bytes)@.len() == 2 * input@.len(),
    ensures
        final(bytes)@ == bulk::word_bytes(input@),
{
    let n: usize = input.len();
    let total: usize = bytes.len();
    for i in 0..n
        invariant
            n == input@.len(),
            bytes@.len() == 2 * n,
            total == 2 * n,
            forall|j: int| 0 <= j < 2 * i ==> bytes@[j] == #[trigger] bulk::word_bytes(input@)[j],
    {
        let value: u16 = input[i];
        let offset: usize = i * 2;
        proof {
            bulk::lemma_word(0, 0, value);
        }
        bytes[offset] = (value & 0xff) as u8;
        bytes[offset + 1] = (value >> 8) as u8;
    }
    assert(bytes@ =~= bulk::word_bytes(input@));
}

} // verus!
