//! The AVX2 strategy.

use vstd::prelude::*;

use crate::galois::bulk;
use crate::galois::simd::batch;
use crate::galois::simd::kernel;
use crate::galois::simd::kernel::StretchKernel;
use crate::galois::simd::shuffle2x;
use crate::galois::simd::x86::CpuFeatures;
use crate::galois::simd::{GaloisSimdStrategy, Priority};
use crate::galois::sums;

verus! {

/// AVX2 strategy: products looked up by nibbles, natively on the shuffle2x layout.
pub struct Avx2ShuffleStrategy;

impl GaloisSimdStrategy for Avx2ShuffleStrategy {
    open spec fn named(&self) -> Seq<char> {
        "AVX2-Shuffle"@
    }

    open spec fn usable(&self, cpu: CpuFeatures) -> bool {
        cpu.avx2
    }

    open spec fn ranked(&self) -> Priority {
        Priority::Optimal
    }

    open spec fn shuffles(&self) -> bool {
        true
    }

    fn name(&self) -> (r: &'static str) {
        "AVX2-Shuffle"
    }

    fn is_available(&self, cpu: CpuFeatures) -> (r: bool) {
        cpu.avx2
    }

    fn priority(&self) -> (r: Priority) {
        Priority::Optimal
    }

    fn mul_slice(&self, scalar: u16, data: &mut [u16]) {
        batch::mul_slice_table(scalar, data);
    }

    fn muladd(&self, dst: &mut [u16], src: &[u16], scalar: u16) {
        batch::muladd_table(dst, src, scalar);
    }

    fn muladd_region(
        &self,
        destinations: &mut [Vec<u16>],
        sources: &[&[u16]],
        coefficients: &[&[u16]],
        region_offset: usize,
        region_size: usize,
    ) {
        let ghost before = destinations@;
        kernel::region(
            &kernel::TableKernel,
            destinations,
            sources,
            coefficients,
            region_offset,
            region_size,
        );
        proof {
            let views = bulk::slice_views(sources@);
            assert forall|d: int| 0 <= d < before.len() implies #[trigger] destinations@[d]@
                == bulk::add_weighted_region(
                before[d]@,
                views,
                coefficients@[d]@,
                region_offset as int,
                region_size as int,
            ) by {
                assert(bulk::slice_views(coefficients@)[d] == coefficients@[d]@);
                kernel::lemma_plain_row(
                    kernel::TableKernel,
                    before[d]@,
                    views,
                    coefficients@[d]@,
                    region_offset as int,
                    region_size as int,
                );
            }
        }
    }

    fn supports_shuffle2x(&self) -> (r: bool) {
        true
    }

    fn prepare_shuffle2x(&self, data: &mut [u16]) {
        shuffle2x::prepare(data);
    }

    fn finish_shuffle2x(&self, data: &mut [u16]) {
        shuffle2x::finish(data);
    }

    fn muladd_shuffle2x(&self, dst: &mut [u16], src: &[u16], scalar: u16) {
        shuffle2x::muladd(dst, src, scalar);
    }

    fn muladd_region_shuffle2x(
        &self,
        destinations: &mut [Vec<u16>],
        sources: &[&[u16]],
        coefficients: &[&[u16]],
        region_offset: usize,
        region_size: usize,
    ) {
        gf_muladd_region_native_shuffle2x(
            destinations,
            sources,
            coefficients,
            region_offset,
            region_size,
        );
    }
}

/// Multiply and add on a region of several destinations, all of them and the sources in the
/// shuffle2x layout.
fn gf_muladd_region_native_shuffle2x(
    destinations: &mut [Vec<u16>],
    sources: &[&[u16]],
    coefficients: &[&[u16]],
    region_offset: usize,
    region_size: usize,
)
    requires
        kernel::region_covered(
            bulk::row_views(old(destinations)@),
            bulk::slice_views(sources@),
            bulk::slice_views(coefficients@),
            region_offset as int,
            region_size as int,
        ),
    ensures
        final(destinations)@.len() == old(destinations)@.len(),
        forall|d: int|
            0 <= d < old(destinations)@.len() ==> #[trigger] final(destinations)@[d]@
                == shuffle2x::add_shuffled_region(
                old(destinations)@[d]@,
                bulk::slice_views(sources@),
                coefficients@[d]@,
                region_offset as int,
                region_size as int,
            ),
{
    let ghost before = destinations@;
    kernel::region(
        &kernel::ShuffleKernel,
        destinations,
        sources,
        coefficients,
        region_offset,
        region_size,
    );
    proof {
        let views = bulk::slice_views(sources@);
        let off = region_offset as int;
        let size = region_size as int;
        assert forall|d: int| 0 <= d < before.len() implies #[trigger] destinations@[d]@
            == shuffle2x::add_shuffled_region(before[d]@, views, coefficients@[d]@, off, size) by {
            let coeffs = coefficients@[d]@;
            let left = kernel::row_after(
                kernel::ShuffleKernel,
                before[d]@,
                views,
                coeffs,
                off,
                size,
            );
            let right = shuffle2x::add_shuffled_region(before[d]@, views, coeffs, off, size);
            assert forall|i: int| 0 <= i < left.len() implies left[i] == right[i] by {
                let f = |s: int|
                    kernel::ShuffleKernel.gain(views[s], coeffs[s], off, size, i);
                let g = |s: int|
                    shuffle2x::shuffled_product(
                        views[s].subrange(off, off + size),
                        coeffs[s],
                    )[i - off];
                assert forall|s: int| 0 <= s < views.len() implies #[trigger] f(s) == g(s) by {}
                sums::lemma_sum_equal(f, g, views.len());
            }
            assert(left =~= right);
        }
    }
}

} // verus!
