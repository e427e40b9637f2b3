//! Multiply-and-add loops over slices and regions, for any way to multiply.

use vstd::prelude::*;

use crate::galois::bulk;
use crate::galois::field;
use crate::galois::simd::clmul;
use crate::galois::simd::lut::Multiply128Lut;
use crate::galois::simd::shuffle2x;
use crate::galois::sums;

verus! {

/// A way to add a multiple of a stretch of one slice to another.
pub trait StretchKernel {
    /// What element `i` of the destination gains from `c` times the stretch of `src` that starts
    /// at `offset` and holds `size` elements.
    spec fn gain(&self, src: Seq<u16>, c: u16, offset: int, size: int, i: int) -> u16;

    fn stretch(&self, dst: &mut [u16], src: &[u16], c: u16, offset: usize, size: usize)
        requires
            offset + size <= old(dst)@.len(),
            offset + size <= src@.len(),
        ensures
            final(dst)@ == Seq::new(
                old(dst)@.len(),
                |i: int|
                    if offset <= i < offset + size {
                        old(dst)@[i] ^ self.gain(src@, c, offset as int, size as int, i)
                    } else {
                        old(dst)@[i]
                    },
            ),
    ;
}

/// Multiply through nibble tables.
pub struct TableKernel;

impl StretchKernel for TableKernel {
    open spec fn gain(&self, src: Seq<u16>, c: u16, offset: int, size: int, i: int) -> u16 {
        field::product(src[i], c)
    }

    fn stretch(&self, dst: &mut [u16], src: &[u16], c: u16, offset: usize, size: usize) {
        let lut = Multiply128Lut::new(c);
        let reach: usize = src.len();
        assert(offset + size <= reach);
        for i in offset..offset + size
            invariant
                lut.is_for(c),
                offset + size <= dst@.len(),
                offset + size <= src@.len(),
                dst@.len() == old(dst)@.len(),
                forall|j: int|
                    offset <= j < i ==> #[trigger] dst@[j] == old(dst)@[j] ^ field::product(
                        src@[j],
                        c,
                    ),
                forall|j: int|
                    (0 <= j < offset || i <= j < dst@.len()) ==> #[trigger] dst@[j] == old(dst)@[j],
        {
            dst[i] = dst[i] ^ lut.mul(src[i]);
        }
    }
}

/// Multiply by carry-less product and Barrett reduction.
pub struct CarrylessKernel;

impl StretchKernel for CarrylessKernel {
    open spec fn gain(&self, src: Seq<u16>, c: u16, offset: int, size: int, i: int) -> u16 {
        field::product(src[i], c)
    }

    fn stretch(&self, dst: &mut [u16], src: &[u16], c: u16, offset: usize, size: usize) {
        let reach: usize = src.len();
        assert(offset + size <= reach);
        for i in offset..offset + size
            invariant
                offset + size <= dst@.len(),
                offset + size <= src@.len(),
                dst@.len() == old(dst)@.len(),
                forall|j: int|
                    offset <= j < i ==> #[trigger] dst@[j] == old(dst)@[j] ^ field::product(
                        src@[j],
                        c,
                    ),
                forall|j: int|
                    (0 <= j < offset || i <= j < dst@.len()) ==> #[trigger] dst@[j] == old(dst)@[j],
        {
            dst[i] = dst[i] ^ clmul::gf_mul_pclmul(src[i], c);
        }
    }
}

/// Multiply elements in the shuffle2x layout through nibble tables.
pub struct ShuffleKernel;

impl StretchKernel for ShuffleKernel {
    open spec fn gain(&self, src: Seq<u16>, c: u16, offset: int, size: int, i: int) -> u16 {
        shuffle2x::shuffled_product(src.subrange(offset, offset + size), c)[i - offset]
    }

    fn stretch(&self, dst: &mut [u16], src: &[u16], c: u16, offset: usize, size: usize) {
        shuffle2x::muladd_stretch(dst, src, c, offset, size);
    }
}

/// The slices of an operation on a region reach to its end, and every source has a coefficient in
/// each row.
pub open spec fn region_covered(
    destinations: Seq<Seq<u16>>,
    sources: Seq<Seq<u16>>,
    coefficients: Seq<Seq<u16>>,
    offset: int,
    size: int,
) -> bool {
    &&& destinations.len() <= coefficients.len()
    &&& forall|d: int|
        0 <= d < destinations.len() ==> offset + size <= (#[trigger] destinations[d]).len()
    &&& forall|s: int| 0 <= s < sources.len() ==> offset + size <= (#[trigger] sources[s]).len()
    &&& forall|d: int|
        0 <= d < destinations.len() ==> sources.len() <= (#[trigger] coefficients[d]).len()
}

/// What element `i` of a row gains from the first `n` sources.
pub open spec fn total_gain<K: StretchKernel>(
    kernel: K,
    sources: Seq<Seq<u16>>,
    coeffs: Seq<u16>,
    n: nat,
    offset: int,
    size: int,
    i: int,
) -> u16 {
    sums::xor_sum(|s: int| kernel.gain(sources[s], coeffs[s], offset, size, i), n)
}

/// A row after all sources have been added to its region.
pub open spec fn row_after<K: StretchKernel>(
    kernel: K,
    dst: Seq<u16>,
    sources: Seq<Seq<u16>>,
    coeffs: Seq<u16>,
    offset: int,
    size: int,
) -> Seq<u16> {
    Seq::new(
        dst.len(),
        |i: int|
            if offset <= i < offset + size {
                dst[i] ^ total_gain(kernel, sources, coeffs, sources.len(), offset, size, i)
            } else {
                dst[i]
            },
    )
}

/// Add all sources to the region of one row.
fn region_row<K: StretchKernel>(
    kernel: &K,
    dst: &mut [u16],
    sources: &[&[u16]],
    coeffs: &[u16],
    offset: usize,
    size: usize,
)
    requires
        offset + size <= old(dst)@.len(),
        sources@.len() <= coeffs@.len(),
        forall|s: int|
            0 <= s < sources@.len() ==> offset + size <= (#[trigger] bulk::slice_views(
                sources@,
            )[s]).len(),
    ensures
        final(dst)@ == row_after(
            *kernel,
            old(dst)@,
            bulk::slice_views(sources@),
            coeffs@,
            offset as int,
            size as int,
        ),
{
    let n: usize = sources.len();
    let ghost views = bulk::slice_views(sources@);
    proof {
        assert forall|i: int| 0 <= i < dst@.len() implies #[trigger] dst@[i] ^ 0 == dst@[i] by {
            field::law_xor(dst@[i], 0, 0);
        }
    }
    for s in 0..n
        invariant
            n == sources@.len(),
            sources@.len() <= coeffs@.len(),
            views == bulk::slice_views(sources@),
            dst@.len() == old(dst)@.len(),
            offset + size <= dst@.len(),
            forall|s: int| 0 <= s < views.len() ==> offset + size <= (#[trigger] views[s]).len(),
            forall|i: int|
                offset <= i < offset + size ==> #[trigger] dst@[i] == old(dst)@[i] ^ total_gain(
                    *kernel,
                    views,
                    coeffs@,
                    s as nat,
                    offset as int,
                    size as int,
                    i,
                ),
            forall|i: int|
                (0 <= i < offset || offset + size <= i < dst@.len()) ==> #[trigger] dst@[i] == old(
                    dst,
                )@[i],
    {
        let ghost before = dst@;
        assert(views[s as int] == sources@[s as int]@);
        kernel.stretch(dst, sources[s], coeffs[s], offset, size);
        proof {
            assert forall|i: int| offset <= i < offset + size implies #[trigger] dst@[i] == old(
                dst,
            )@[i] ^ total_gain(
                *kernel,
                views,
                coeffs@,
                (s + 1) as nat,
                offset as int,
                size as int,
                i,
            ) by {
                let f = |s: int|
                    kernel.gain(views[s], coeffs@[s], offset as int, size as int, i);
                let w = sums::xor_sum(f, s as nat);
                assert(sums::xor_sum(f, (s + 1) as nat) == w ^ f(s as int));
                assert(before[i] == old(dst)@[i] ^ w);
                field::law_xor(old(dst)@[i], w, f(s as int));
            }
        }
    }
    assert(dst@ =~= row_after(
        *kernel,
        old(dst)@,
        views,
        coeffs@,
        offset as int,
        size as int,
    ));
}

/// Add all sources to the region of every row.
pub fn region<K: StretchKernel>(
    kernel: &K,
    destinations: &mut [Vec<u16>],
    sources: &[&[u16]],
    coefficients: &[&[u16]],
    offset: usize,
    size: usize,
)
    requires
        region_covered(
            bulk::row_views(old(destinations)@),
            bulk::slice_views(sources@),
            bulk::slice_views(coefficients@),
            offset as int,
            size as int,
        ),
    ensures
        final(destinations)@.len() == old(destinations)@.len(),
        forall|d: int|
            0 <= d < old(destinations)@.len() ==> #[trigger] final(destinations)@[d]@ == row_after(
                *kernel,
                old(destinations)@[d]@,
                bulk::slice_views(sources@),
                coefficients@[d]@,
                offset as int,
                size as int,
            ),
{
    let n: usize = destinations.len();
    let ghost rows = bulk::row_views(old(destinations)@);
    let ghost views = bulk::slice_views(sources@);
    let ghost coeffs = bulk::slice_views(coefficients@);
    for d in 0..n
        invariant
            n == old(destinations)@.len(),
            destinations@.len() == n,
            rows == bulk::row_views(old(destinations)@),
            views == bulk::slice_views(sources@),
            coeffs == bulk::slice_views(coefficients@),
            region_covered(rows, views, coeffs, offset as int, size as int),
            forall|k: int|
                0 <= k < d ==> #[trigger] destinations@[k]@ == row_after(
                    *kernel,
                    old(destinations)@[k]@,
                    views,
                    coefficients@[k]@,
                    offset as int,
                    size as int,
                ),
            forall|k: int| d <= k < n ==> #[trigger] destinations@[k]@ == old(destinations)@[k]@,
    {
        assert(rows[d as int] == old(destinations)@[d as int]@);
        assert(coeffs[d as int] == coefficients@[d as int]@);
        region_row(
            kernel,
            destinations[d].as_mut_slice(),
            sources,
            coefficients[d],
            offset,
            size,
        );
    }
}

/// A kernel whose gain is the product with the coefficient adds the weighted sum.
pub proof fn lemma_plain_row<K: StretchKernel>(
    kernel: K,
    dst: Seq<u16>,
    sources: Seq<Seq<u16>>,
    coeffs: Seq<u16>,
    offset: int,
    size: int,
)
    requires
        0 <= offset,
        sources.len() <= coeffs.len(),
        forall|s: int| 0 <= s < sources.len() ==> offset + size <= (#[trigger] sources[s]).len(),
        forall|src: Seq<u16>, c: u16, i: int|
            #[trigger] kernel.gain(src, c, offset, size, i) == field::product(src[i], c),
    ensures
        row_after(kernel, dst, sources, coeffs, offset, size) == bulk::add_weighted_region(
            dst,
            sources,
            coeffs,
            offset,
            size,
        ),
{
    let left = row_after(kernel, dst, sources, coeffs, offset, size);
    let right = bulk::add_weighted_region(dst, sources, coeffs, offset, size);
    assert forall|i: int| 0 <= i < dst.len() implies left[i] == right[i] by {
        if offset <= i < offset + size {
            let f = |s: int| kernel.gain(sources[s], coeffs[s], offset, size, i);
            let g = |s: int| bulk::term(sources, coeffs, s, i);
            assert forall|s: int| 0 <= s < sources.len() implies #[trigger] f(s) == g(s) by {
                assert(offset + size <= sources[s].len());
            }
            sums::lemma_sum_equal(f, g, sources.len());
        }
    }
    assert(left =~= right);
}

} // verus!
