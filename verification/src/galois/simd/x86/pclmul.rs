//! The strategies that multiply by carry-less product.

use vstd::prelude::*;

use crate::galois::bulk;
use crate::galois::simd::batch;
use crate::galois::simd::kernel;
use crate::galois::simd::x86::CpuFeatures;
use crate::galois::simd::{GaloisSimdStrategy, Priority};

verus! {

/// SSE PCLMUL strategy: carry-less products with Barrett reduction.
pub struct PclmulStrategy;

impl GaloisSimdStrategy for PclmulStrategy {
    open spec fn named(&self) -> Seq<char> {
        "PCLMUL"@
    }

    open spec fn usable(&self, cpu: CpuFeatures) -> bool {
        cpu.pclmulqdq && cpu.sse41 && cpu.ssse3
    }

    open spec fn ranked(&self) -> Priority {
        Priority::Advanced
    }

    open spec fn shuffles(&self) -> bool {
        false
    }

    fn name(&self) -> (r: &'static str) {
        "PCLMUL"
    }

    fn is_available(&self, cpu: CpuFeatures) -> (r: bool) {
        cpu.pclmulqdq && cpu.sse41 && cpu.ssse3
    }

    fn priority(&self) -> (r: Priority) {
        Priority::Advanced
    }

    fn mul_slice(&self, scalar: u16, data: &mut [u16]) {
        batch::mul_slice_carryless(scalar, data);
    }

    fn muladd(&self, dst: &mut [u16], src: &[u16], scalar: u16) {
        batch::muladd_carryless(dst, src, scalar);
    }

    fn muladd_region(
        &self,
        destinations: &mut [Vec<u16>],
        sources: &[&[u16]],
        coefficients: &[&[u16]],
        region_offset: usize,
        region_size: usize,
    ) {
        let ghost before = destinations@;
        kernel::region(
            &kernel::CarrylessKernel,
            destinations,
            sources,
            coefficients,
            region_offset,
            region_size,
        );
        proof {
            let views = bulk::slice_views(sources@);
            assert forall|d: int| 0 <= d < before.len() implies #[trigger] destinations@[d]@
                == bulk::add_weighted_region(
                before[d]@,
                views,
                coefficients@[d]@,
                region_offset as int,
                region_size as int,
            ) by {
                assert(bulk::slice_views(coefficients@)[d] == coefficients@[d]@);
                kernel::lemma_plain_row(
                    kernel::CarrylessKernel,
                    before[d]@,
                    views,
                    coefficients@[d]@,
                    region_offset as int,
                    region_size as int,
                );
            }
        }
    }

    fn supports_shuffle2x(&self) -> (r: bool) {
        false
    }

    fn prepare_shuffle2x(&self, _data: &mut [u16]) {
    }

    fn finish_shuffle2x(&self, _data: &mut [u16]) {
    }

    fn muladd_shuffle2x(&self, dst: &mut [u16], src: &[u16], scalar: u16) {
        self.muladd(dst, src, scalar);
    }

    fn muladd_region_shuffle2x(
        &self,
        destinations: &mut [Vec<u16>],
        sources: &[&[u16]],
        coefficients: &[&[u16]],
        region_offset: usize,
        region_size: usize,
    ) {
        self.muladd_region(destinations, sources, coefficients, region_offset, region_size);
    }
}

/// AVX2 and PCLMUL strategy: carry-less products with Barrett reduction.
pub struct Avx2PclmulStrategy;

impl GaloisSimdStrategy for Avx2PclmulStrategy {
    open spec fn named(&self) -> Seq<char> {
        "AVX2-PCLMUL"@
    }

    open spec fn usable(&self, cpu: CpuFeatures) -> bool {
        cpu.pclmulqdq && cpu.avx2 && cpu.sse41 && cpu.ssse3
    }

    open spec fn ranked(&self) -> Priority {
        Priority::Optimal
    }

    open spec fn shuffles(&self) -> bool {
        false
    }

    fn name(&self) -> (r: &'static str) {
        "AVX2-PCLMUL"
    }

    fn is_available(&self, cpu: CpuFeatures) -> (r: bool) {
        cpu.pclmulqdq && cpu.avx2 && cpu.sse41 && cpu.ssse3
    }

    fn priority(&self) -> (r: Priority) {
        Priority::Optimal
    }

    fn mul_slice(&self, scalar: u16, data: &mut [u16]) {
        batch::mul_slice_carryless(scalar, data);
    }

    fn muladd(&self, dst: &mut [u16], src: &[u16], scalar: u16) {
        batch::muladd_carryless(dst, src, scalar);
    }

    fn muladd_region(
        &self,
        destinations: &mut [Vec<u16>],
        sources: &[&[u16]],
        coefficients: &[&[u16]],
        region_offset: usize,
        region_size: usize,
    ) {
        let ghost before = destinations@;
        kernel::region(
            &kernel::CarrylessKernel,
            destinations,
            sources,
            coefficients,
            region_offset,
            region_size,
        );
        proof {
            let views = bulk::slice_views(sources@);
            assert forall|d: int| 0 <= d < before.len() implies #[trigger] destinations@[d]@
                == bulk::add_weighted_region(
                before[d]@,
                views,
                coefficients@[d]@,
                region_offset as int,
                region_size as int,
            ) by {
                assert(bulk::slice_views(coefficients@)[d] == coefficients@[d]@);
                kernel::lemma_plain_row(
                    kernel::CarrylessKernel,
                    before[d]@,
                    views,
                    coefficients@[d]@,
                    region_offset as int,
                    region_size as int,
                );
            }
        }
    }

    fn supports_shuffle2x(&self) -> (r: bool) {
        false
    }

    fn prepare_shuffle2x(&self, _data: &mut [u16]) {
    }

    fn finish_shuffle2x(&self, _data: &mut [u16]) {
    }

    fn muladd_shuffle2x(&self, dst: &mut [u16], src: &[u16], scalar: u16) {
        self.muladd(dst, src, scalar);
    }

    fn muladd_region_shuffle2x(
        &self,
        destinations: &mut [Vec<u16>],
        sources: &[&[u16]],
        coefficients: &[&[u16]],
        region_offset: usize,
        region_size: usize,
    ) {
        self.muladd_region(destinations, sources, coefficients, region_offset, region_size);
    }
}

} // verus!
