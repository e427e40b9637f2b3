//! Operations on regions: stretches of a block that are small enough to stay in the cache.

use vstd::prelude::*;

use crate::galois::bulk;
use crate::galois::element::gf_mul;
use crate::galois::field;
use crate::galois::ops;
use crate::galois::simd::kernel;
use crate::galois::simd::shuffle2x;
use crate::galois::simd::{GaloisSimdStrategy, SimdRegistry};
use crate::galois::sums;

verus! {

/// Default region size in bytes.
pub const REGION_SIZE_BYTES: usize = 131072;

/// Maximum number of sources to batch together.
pub const MAX_SOURCES_PER_BATCH: usize = 16;

/// The region size in bytes: the configured one, if it is at least 4096 and even, else the default.
pub fn region_size_bytes(configured: Option<usize>) -> (r: usize)
    ensures
        r == (match configured {
            Some(v) => if v >= 4096 && v % 2 == 0 {
                v
            } else {
                REGION_SIZE_BYTES
            },
            None => REGION_SIZE_BYTES,
        }),
{
    match configured {
        Some(v) => if v >= 4096 && v % 2 == 0 {
            v
        } else {
            REGION_SIZE_BYTES
        },
        None => REGION_SIZE_BYTES,
    }
}

/// Add several sources, each times its coefficient, to a region of several rows:
/// `destinations[d] ^= sum of sources[s] * coefficients[d][s]` on the `region_size` elements from
/// `region_offset` on.
pub fn gf_muladd_region(
    destinations: &mut [Vec<u16>],
    sources: &[&[u16]],
    coefficients: &[&[u16]],
    region_offset: usize,
    region_size: usize,
)
    requires
        kernel::region_covered(
            bulk::row_views(old(destinations)@),
            bulk::slice_views(sources@),
            bulk::slice_views(coefficients@),
            region_offset as int,
            region_size as int,
        ),
    ensures
        final(destinations)@.len() == old(destinations)@.len(),
        forall|d: int|
            0 <= d < old(destinations)@.len() ==> #[trigger] final(destinations)@[d]@
                == bulk::add_weighted_region(
                old(destinations)@[d]@,
                bulk::slice_views(sources@),
                coefficients@[d]@,
                region_offset as int,
                region_size as int,
            ),
{
    let ghost before = destinations@;
    kernel::region(
        &kernel::TableKernel,
        destinations,
        sources,
        coefficients,
        region_offset,
        region_size,
    );
    proof {
        let views = bulk::slice_views(sources@);
        assert forall|d: int| 0 <= d < before.len() implies #[trigger] destinations@[d]@
            == bulk::add_weighted_region(
            before[d]@,
            views,
            coefficients@[d]@,
            region_offset as int,
            region_size as int,
        ) by {
            assert(bulk::slice_views(coefficients@)[d] == coefficients@[d]@);
            kernel::lemma_plain_row(
                kernel::TableKernel,
                before[d]@,
                views,
                coefficients@[d]@,
                region_offset as int,
                region_size as int,
            );
        }
    }
}

/// Add several sources, each times its coefficient, to the first `block_size` elements of several
/// rows, regions of `region_u16s` elements one after the other.
pub fn gf_muladd_regions_of(
    destinations: &mut [Vec<u16>],
    sources: &[&[u16]],
    coefficients: &[&[u16]],
    block_size: usize,
    region_u16s: usize,
)
    requires
        region_u16s > 0,
        kernel::region_covered(
            bulk::row_views(old(destinations)@),
            bulk::slice_views(sources@),
            bulk::slice_views(coefficients@),
            0,
            block_size as int,
        ),
    ensures
        final(destinations)@.len() == old(destinations)@.len(),
        forall|d: int|
            0 <= d < old(destinations)@.len() ==> #[trigger] final(destinations)@[d]@
                == bulk::add_weighted_region(
                old(destinations)@[d]@,
                bulk::slice_views(sources@),
                coefficients@[d]@,
                0,
                block_size as int,
            ),
{
    let mut offset: usize = 0;
    let ghost rows = bulk::row_views(destinations@);
    let ghost views = bulk::slice_views(sources@);
    let ghost coeffs = bulk::slice_views(coefficients@);
    proof {
        assert forall|d: int| 0 <= d < destinations@.len() implies #[trigger] destinations@[d]@
            == bulk::add_weighted_region(rows[d], views, coeffs[d], 0, 0) by {
            assert(destinations@[d]@ =~= bulk::add_weighted_region(
                rows[d],
                views,
                coeffs[d],
                0,
                0,
            ));
        }
    }
    while offset < block_size
        invariant
            offset <= block_size,
            region_u16s > 0,
            rows == bulk::row_views(old(destinations)@),
            views == bulk::slice_views(sources@),
            coeffs == bulk::slice_views(coefficients@),
            kernel::region_covered(rows, views, coeffs, 0, block_size as int),
            destinations@.len() == rows.len(),
            forall|d: int|
                0 <= d < rows.len() ==> #[trigger] destinations@[d]@ == bulk::add_weighted_region(
                    rows[d],
                    views,
                    coeffs[d],
                    0,
                    offset as int,
                ),
        decreases block_size - offset,
    {
        let region_size: usize = if block_size - offset <= region_u16s {
            block_size - offset
        } else {
            region_u16s
        };
        proof {
            assert forall|d: int| 0 <= d < rows.len() implies (#[trigger] bulk::row_views(
                destinations@,
            )[d]).len() == rows[d].len() by {
                assert(destinations@[d]@.len() == rows[d].len());
            }
        }
        let ghost before = destinations@;
        gf_muladd_region(destinations, sources, coefficients, offset, region_size);
        proof {
            assert forall|d: int| 0 <= d < rows.len() implies #[trigger] destinations@[d]@
                == bulk::add_weighted_region(
                rows[d],
                views,
                coeffs[d],
                0,
                offset + region_size,
            ) by {
                assert(before[d]@ == bulk::add_weighted_region(
                    rows[d],
                    views,
                    coeffs[d],
                    0,
                    offset as int,
                ));
                assert(coeffs[d] == coefficients@[d]@);
                assert(destinations@[d]@ =~= bulk::add_weighted_region(
                    rows[d],
                    views,
                    coeffs[d],
                    0,
                    offset + region_size,
                ));
            }
        }
        offset = offset + region_size;
    }
    proof {
        assert forall|d: int| 0 <= d < rows.len() implies #[trigger] destinations@[d]@
            == bulk::add_weighted_region(
            old(destinations)@[d]@,
            views,
            coefficients@[d]@,
            0,
            block_size as int,
        ) by {
            assert(rows[d] == old(destinations)@[d]@);
            assert(coeffs[d] == coefficients@[d]@);
        }
    }
}

/// Add several sources, each times its coefficient, to the first `block_size` elements of several
/// rows, one region after the other.
pub fn gf_muladd_block_regions(
    destinations: &mut [Vec<u16>],
    sources: &[&[u16]],
    coefficients: &[&[u16]],
    block_size: usize,
)
    requires
        kernel::region_covered(
            bulk::row_views(old(destinations)@),
            bulk::slice_views(sources@),
            bulk::slice_views(coefficients@),
            0,
            block_size as int,
        ),
    ensures
        final(destinations)@.len() == old(destinations)@.len(),
        forall|d: int|
            0 <= d < old(destinations)@.len() ==> #[trigger] final(destinations)@[d]@
                == bulk::add_weighted_region(
                old(destinations)@[d]@,
                bulk::slice_views(sources@),
                coefficients@[d]@,
                0,
                block_size as int,
            ),
{
    gf_muladd_regions_of(
        destinations,
        sources,
        coefficients,
        block_size,
        REGION_SIZE_BYTES / 2,
    );
}

/// Add several sources, each times its coefficient, to a region of several rows, all in the
/// shuffle2x layout; on plain elements if the selected strategy does not work on it.
pub fn gf_muladd_region_shuffle2x<S: GaloisSimdStrategy>(
    registry: &SimdRegistry<S>,
    destinations: &mut [Vec<u16>],
    sources: &[&[u16]],
    coefficients: &[&[u16]],
    region_offset: usize,
    region_size: usize,
)
    requires
        registry.wf(),
        kernel::region_covered(
            bulk::row_views(old(destinations)@),
            bulk::slice_views(sources@),
            bulk::slice_views(coefficients@),
            region_offset as int,
            region_size as int,
        ),
    ensures
        final(destinations)@.len() == old(destinations)@.len(),
        forall|d: int|
            0 <= d < old(destinations)@.len() ==> #[trigger] final(destinations)@[d]@
                == region_result(
                ops::shuffling(*registry),
                old(destinations)@[d]@,
                bulk::slice_views(sources@),
                coefficients@[d]@,
                region_offset as int,
                region_size as int,
            ),
{
    if let Some(strategy) = registry.get_selected() {
        if strategy.supports_shuffle2x() {
            strategy.muladd_region_shuffle2x(
                destinations,
                sources,
                coefficients,
                region_offset,
                region_size,
            );
            return;
        }
    }
    gf_muladd_region(destinations, sources, coefficients, region_offset, region_size);
}

/// A row after all sources have been added to its region, in the shuffle2x layout or without it.
pub open spec fn region_result(
    shuffling: bool,
    dst: Seq<u16>,
    sources: Seq<Seq<u16>>,
    coeffs: Seq<u16>,
    offset: int,
    size: int,
) -> Seq<u16> {
    if shuffling {
        shuffle2x::add_shuffled_region(dst, sources, coeffs, offset, size)
    } else {
        bulk::add_weighted_region(dst, sources, coeffs, offset, size)
    }
}

/// The product of a stretch in the shuffle2x layout is that stretch of the product, if the stretch
/// starts at a full block and ends at one or at the end.
proof fn lemma_product_of_stretch(src: Seq<u16>, c: u16, n: int, offset: int, size: int, i: int)
    requires
        0 <= offset,
        0 < size,
        offset + size <= n <= src.len(),
        offset % 16 == 0,
        size % 16 == 0 || offset + size == n,
        offset <= i < offset + size,
    ensures
        shuffle2x::shuffled_product(src.subrange(offset, offset + size), c)[i - offset]
            == shuffle2x::shuffled_product(src.subrange(0, n), c)[i],
{
    let part = src.subrange(offset, offset + size);
    let whole = src.subrange(0, n);
    let xp = shuffle2x::unshuffled(part);
    let xw = shuffle2x::unshuffled(whole);
    let up = bulk::mul_each(xp, c);
    let uw = bulk::mul_each(xw, c);
    let o = offset / 16;
    assert forall|j: int| 0 <= j < size implies xp[j] == #[trigger] xw[offset + j] by {
        lemma_blocks(o, j, size, n);
        let b = 16 * (j / 16);
        let h = (j % 16) / 2;
        if j < shuffle2x::blocked(size as nat) {
            assert(part[b + h] == whole[offset + b + h]);
            assert(part[b + 8 + h] == whole[offset + b + 8 + h]);
        }
    }
    assert forall|j: int| 0 <= j < size implies up[j] == #[trigger] uw[offset + j] by {
        assert(xp[j] == xw[offset + j]);
    }
    let k = i - offset;
    lemma_blocks(o, k, size, n);
    if k < shuffle2x::blocked(size as nat) {
        let b = 16 * (k / 16);
        let h = if k % 16 < 8 {
            k % 16
        } else {
            k % 16 - 8
        };
        assert(up[b + 2 * h] == uw[offset + (b + 2 * h)]);
        assert(up[b + 2 * h + 1] == uw[offset + (b + 2 * h + 1)]);
    } else {
        assert(up[k] == uw[offset + k]);
    }
}

/// Where element `j` of a stretch stands within its block, and within that of the whole.
proof fn lemma_blocks(o: int, j: int, size: int, n: int)
    requires
        0 <= o,
        0 <= j < size,
        16 * o + size <= n,
        size % 16 == 0 || 16 * o + size == n,
    ensures
        (16 * o + j) / 16 == o + j / 16,
        (16 * o + j) % 16 == j % 16,
        16 * o + j < shuffle2x::blocked(n as nat) <==> j < shuffle2x::blocked(size as nat),
{
}

/// Adding in the shuffle2x layout to the regions up to `offset`, and then to the next one, is
/// adding to the regions up to the end of that one.
proof fn lemma_shuffled_regions(
    dst: Seq<u16>,
    sources: Seq<Seq<u16>>,
    coeffs: Seq<u16>,
    offset: int,
    size: int,
    n: int,
)
    requires
        0 <= offset,
        0 < size,
        offset + size <= n,
        n <= dst.len(),
        offset % 16 == 0,
        size % 16 == 0 || offset + size == n,
        forall|s: int| 0 <= s < sources.len() ==> n <= (#[trigger] sources[s]).len(),
    ensures
        forall|i: int|
            offset <= i < offset + size ==> #[trigger] shuffle2x::shuffled_sum(
                sources,
                coeffs,
                sources.len(),
                offset,
                size,
                i,
            ) == shuffle2x::shuffled_sum(sources, coeffs, sources.len(), 0, n, i),
{
    assert forall|i: int|
        offset <= i < offset + size implies #[trigger] shuffle2x::shuffled_sum(
        sources,
        coeffs,
        sources.len(),
        offset,
        size,
        i,
    ) == shuffle2x::shuffled_sum(sources, coeffs, sources.len(), 0, n, i) by {
        let f = |s: int|
            shuffle2x::shuffled_product(
                sources[s].subrange(offset, offset + size),
                coeffs[s],
            )[i - offset];
        let g = |s: int|
            shuffle2x::shuffled_product(sources[s].subrange(0, 0 + n), coeffs[s])[i - 0];
        assert forall|s: int| 0 <= s < sources.len() implies #[trigger] f(s) == g(s) by {
            assert(n <= sources[s].len());
            lemma_product_of_stretch(sources[s], coeffs[s], n, offset, size, i);
        }
        sums::lemma_sum_equal(f, g, sources.len());
    }
}

/// A row in the shuffle2x layout after all sources have been added to its first `done` elements,
/// of the `n` that will be.
spec fn shuffled_progress(
    dst: Seq<u16>,
    sources: Seq<Seq<u16>>,
    coeffs: Seq<u16>,
    done: int,
    n: int,
) -> Seq<u16> {
    Seq::new(
        dst.len(),
        |i: int|
            if 0 <= i < done {
                dst[i] ^ shuffle2x::shuffled_sum(sources, coeffs, sources.len(), 0, n, i)
            } else {
                dst[i]
            },
    )
}

/// Add several sources, each times its coefficient, to the first `block_size` elements of several
/// rows, all in the shuffle2x layout, one region after the other; on plain elements if the
/// selected strategy does not work on it.
pub fn gf_muladd_block_regions_shuffle2x<S: GaloisSimdStrategy>(
    registry: &SimdRegistry<S>,
    destinations: &mut [Vec<u16>],
    sources: &[&[u16]],
    coefficients: &[&[u16]],
    block_size: usize,
)
    requires
        registry.wf(),
        kernel::region_covered(
            bulk::row_views(old(destinations)@),
            bulk::slice_views(sources@),
            bulk::slice_views(coefficients@),
            0,
            block_size as int,
        ),
    ensures
        final(destinations)@.len() == old(destinations)@.len(),
        forall|d: int|
            0 <= d < old(destinations)@.len() ==> #[trigger] final(destinations)@[d]@
                == region_result(
                ops::shuffling(*registry),
                old(destinations)@[d]@,
                bulk::slice_views(sources@),
                coefficients@[d]@,
                0,
                block_size as int,
            ),
{
    if !ops::supports_shuffle2x(registry) {
        gf_muladd_block_regions(destinations, sources, coefficients, block_size);
        return;
    }
    let region_u16s: usize = REGION_SIZE_BYTES / 2;
    let mut offset: usize = 0;
    let ghost rows = bulk::row_views(destinations@);
    let ghost views = bulk::slice_views(sources@);
    let ghost coeffs = bulk::slice_views(coefficients@);
    let ghost n = block_size as int;
    proof {
        assert forall|d: int| 0 <= d < destinations@.len() implies #[trigger] destinations@[d]@
            == shuffled_progress(rows[d], views, coeffs[d], 0, n) by {
            assert(destinations@[d]@ =~= shuffled_progress(rows[d], views, coeffs[d], 0, n));
        }
    }
    while offset < block_size
        invariant
            registry.wf(),
            ops::shuffling(*registry),
            offset <= block_size,
            offset % 16 == 0 || offset == block_size,
            region_u16s == 65536,
            n == block_size as int,
            rows == bulk::row_views(old(destinations)@),
            views == bulk::slice_views(sources@),
            coeffs == bulk::slice_views(coefficients@),
            kernel::region_covered(rows, views, coeffs, 0, block_size as int),
            destinations@.len() == rows.len(),
            forall|d: int|
                0 <= d < rows.len() ==> #[trigger] destinations@[d]@ == shuffled_progress(
                    rows[d],
                    views,
                    coeffs[d],
                    offset as int,
                    n,
                ),
        decreases block_size - offset,
    {
        let region_size: usize = if block_size - offset <= region_u16s {
            block_size - offset
        } else {
            region_u16s
        };
        proof {
            assert forall|d: int| 0 <= d < rows.len() implies (#[trigger] bulk::row_views(
                destinations@,
            )[d]).len() == rows[d].len() by {
                assert(destinations@[d]@.len() == rows[d].len());
            }
        }
        let ghost before = destinations@;
        gf_muladd_region_shuffle2x(
            registry,
            destinations,
            sources,
            coefficients,
            offset,
            region_size,
        );
        proof {
            assert forall|d: int| 0 <= d < rows.len() implies #[trigger] destinations@[d]@
                == shuffled_progress(rows[d], views, coeffs[d], offset + region_size, n) by {
                assert(before[d]@ == shuffled_progress(
                    rows[d],
                    views,
                    coeffs[d],
                    offset as int,
                    n,
                ));
                assert(coeffs[d] == coefficients@[d]@);
                lemma_shuffled_regions(
                    rows[d],
                    views,
                    coeffs[d],
                    offset as int,
                    region_size as int,
                    n,
                );
                assert(destinations@[d]@ =~= shuffled_progress(
                    rows[d],
                    views,
                    coeffs[d],
                    offset + region_size,
                    n,
                ));
            }
        }
        offset = offset + region_size;
    }
    proof {
        assert forall|d: int| 0 <= d < rows.len() implies #[trigger] destinations@[d]@
            == region_result(
            true,
            old(destinations)@[d]@,
            views,
            coefficients@[d]@,
            0,
            block_size as int,
        ) by {
            assert(rows[d] == old(destinations)@[d]@);
            assert(coeffs[d] == coefficients@[d]@);
            assert(destinations@[d]@ =~= shuffle2x::add_shuffled_region(
                rows[d],
                views,
                coeffs[d],
                0,
                n,
            ));
        }
    }
}

/// A row after `c` times one source has been added to its region.
pub open spec fn add_region(
    dst: Seq<u16>,
    src: Seq<u16>,
    c: u16,
    offset: int,
    size: int,
) -> Seq<u16> {
    Seq::new(
        dst.len(),
        |i: int|
            if offset <= i < offset + size {
                dst[i] ^ field::product(src[i], c)
            } else {
                dst[i]
            },
    )
}

/// Add a multiple of one source to a region of each of several rows.
pub fn gf_muladd_column_region(
    destinations: &mut [Vec<u16>],
    source: &[u16],
    coefficients: &[u16],
    region_offset: usize,
    region_size: usize,
)
    requires
        old(destinations)@.len() == coefficients@.len(),
        region_offset + region_size <= source@.len(),
        forall|d: int|
            0 <= d < old(destinations)@.len() && coefficients@[d] != 0 ==> region_offset
                + region_size <= (#[trigger] old(destinations)@[d])@.len(),
    ensures
        final(destinations)@.len() == old(destinations)@.len(),
        forall|d: int|
            0 <= d < old(destinations)@.len() ==> #[trigger] final(destinations)@[d]@ == add_region(
                old(destinations)@[d]@,
                source@,
                coefficients@[d],
                region_offset as int,
                region_size as int,
            ),
{
    let n: usize = destinations.len();
    let reach: usize = source.len();
    let end: usize = region_offset + region_size;
    for d in 0..n
        invariant
            n == coefficients@.len(),
            destinations@.len() == n,
            old(destinations)@.len() == n,
            end == region_offset + region_size,
            end <= source@.len(),
            forall|k: int|
                0 <= k < n && coefficients@[k] != 0 ==> end <= (#[trigger] old(
                    destinations,
                )@[k])@.len(),
            forall|k: int|
                0 <= k < d ==> #[trigger] destinations@[k]@ == add_region(
                    old(destinations)@[k]@,
                    source@,
                    coefficients@[k],
                    region_offset as int,
                    region_size as int,
                ),
            forall|k: int| d <= k < n ==> #[trigger] destinations@[k]@ == old(destinations)@[k]@,
    {
        let coeff: u16 = coefficients[d];
        let ghost row = destinations@[d as int]@;
        if coeff != 0 {
            assert(end <= old(destinations)@[d as int]@.len());
            for i in region_offset..end
                invariant
                    d < n,
                    destinations@.len() == n,
                    old(destinations)@.len() == n,
                    n == coefficients@.len(),
                    end == region_offset + region_size,
                    end <= source@.len(),
                    end <= row.len(),
                    coeff == coefficients@[d as int],
                    row == old(destinations)@[d as int]@,
                    destinations@[d as int]@ == add_region(
                        row,
                        source@,
                        coeff,
                        region_offset as int,
                        i - region_offset,
                    ),
                    forall|k: int|
                        0 <= k < d ==> #[trigger] destinations@[k]@ == add_region(
                            old(destinations)@[k]@,
                            source@,
                            coefficients@[k],
                            region_offset as int,
                            region_size as int,
                        ),
                    forall|k: int|
                        d < k < n ==> #[trigger] destinations@[k]@ == old(destinations)@[k]@,
            {
                let sum: u16 = destinations[d][i] ^ gf_mul(source[i], coeff);
                destinations[d][i] = sum;
                assert(destinations@[d as int]@ =~= add_region(
                    row,
                    source@,
                    coeff,
                    region_offset as int,
                    i + 1 - region_offset,
                ));
            }
        } else {
            proof {
                let after = add_region(
                    row,
                    source@,
                    0,
                    region_offset as int,
                    region_size as int,
                );
                assert forall|i: int| 0 <= i < row.len() implies after[i] == row[i] by {
                    if region_offset <= i < end {
                        field::law_product_zero(source@[i]);
                        field::law_xor(row[i], 0, 0);
                    }
                }
                assert(after =~= row);
            }
        }
    }
}

/// What one source adds to a region, element by element: nothing outside of it.
pub proof fn law_region_element_by_element(
    dst: Seq<u16>,
    src: Seq<u16>,
    c: u16,
    offset: int,
    size: int,
    i: int,
)
    requires
        0 <= i < dst.len(),
    ensures
        add_region(dst, src, c, offset, size).len() == dst.len(),
        add_region(dst, src, c, offset, size)[i] == (if offset <= i < offset + size {
            dst[i] ^ field::product(src[i], c)
        } else {
            dst[i]
        }),
{
}

} // verus!
