//! The SSE2 and SSSE3 strategies.

use vstd::prelude::*;

use crate::galois::bulk;
use crate::galois::scalar;
use crate::galois::simd::batch;
use crate::galois::simd::kernel;
use crate::galois::simd::x86::CpuFeatures;
use crate::galois::simd::{GaloisSimdStrategy, Priority};

verus! {

/// SSE2 strategy: one element after the other.
pub struct Sse2Strategy;

impl GaloisSimdStrategy for Sse2Strategy {
    open spec fn named(&self) -> Seq<char> {
        "SSE2"@
    }

    open spec fn usable(&self, cpu: CpuFeatures) -> bool {
        cpu.sse2
    }

    open spec fn ranked(&self) -> Priority {
        Priority::Basic
    }

    open spec fn shuffles(&self) -> bool {
        false
    }

    fn name(&self) -> (r: &'static str) {
        "SSE2"
    }

    fn is_available(&self, cpu: CpuFeatures) -> (r: bool) {
        cpu.sse2
    }

    fn priority(&self) -> (r: Priority) {
        Priority::Basic
    }

    fn mul_slice(&self, scalar: u16, data: &mut [u16]) {
        scalar::gf_mul_slice_scalar(scalar, data);
    }

    fn muladd(&self, dst: &mut [u16], src: &[u16], scalar: u16) {
        scalar::gf_muladd_scalar(dst, src, scalar);
    }

    fn muladd_region(
        &self,
        destinations: &mut [Vec<u16>],
        sources: &[&[u16]],
        coefficients: &[&[u16]],
        region_offset: usize,
        region_size: usize,
    ) {
        proof {
            lemma_covered_fits(
                bulk::row_views(destinations@),
                bulk::slice_views(sources@),
                bulk::slice_views(coefficients@),
                region_offset as int,
                region_size as int,
            );
        }
        scalar::gf_muladd_region_scalar(
            destinations,
            sources,
            coefficients,
            region_offset,
            region_size,
        );
    }

    fn supports_shuffle2x(&self) -> (r: bool) {
        false
    }

    fn prepare_shuffle2x(&self, _data: &mut [u16]) {
    }

    fn finish_shuffle2x(&self, _data: &mut [u16]) {
    }

    fn muladd_shuffle2x(&self, dst: &mut [u16], src: &[u16], scalar: u16) {
        self.muladd(dst, src, scalar);
    }

    fn muladd_region_shuffle2x(
        &self,
        destinations: &mut [Vec<u16>],
        sources: &[&[u16]],
        coefficients: &[&[u16]],
        region_offset: usize,
        region_size: usize,
    ) {
        self.muladd_region(destinations, sources, coefficients, region_offset, region_size);
    }
}

/// SSSE3 strategy: products looked up by nibbles.
pub struct Ssse3Strategy;

impl GaloisSimdStrategy for Ssse3Strategy {
    open spec fn named(&self) -> Seq<char> {
        "SSSE3"@
    }

    open spec fn usable(&self, cpu: CpuFeatures) -> bool {
        cpu.ssse3
    }

    open spec fn ranked(&self) -> Priority {
        Priority::Enhanced
    }

    open spec fn shuffles(&self) -> bool {
        false
    }

    fn name(&self) -> (r: &'static str) {
        "SSSE3"
    }

    fn is_available(&self, cpu: CpuFeatures) -> (r: bool) {
        cpu.ssse3
    }

    fn priority(&self) -> (r: Priority) {
        Priority::Enhanced
    }

    fn mul_slice(&self, scalar: u16, data: &mut [u16]) {
        batch::mul_slice_table(scalar, data);
    }

    fn muladd(&self, dst: &mut [u16], src: &[u16], scalar: u16) {
        batch::muladd_table(dst, src, scalar);
    }

    fn muladd_region(
        &self,
        destinations: &mut [Vec<u16>],
        sources: &[&[u16]],
        coefficients: &[&[u16]],
        region_offset: usize,
        region_size: usize,
    ) {
        proof {
            lemma_covered_fits(
                bulk::row_views(destinations@),
                bulk::slice_views(sources@),
                bulk::slice_views(coefficients@),
                region_offset as int,
                region_size as int,
            );
        }
        scalar::gf_muladd_region_scalar(
            destinations,
            sources,
            coefficients,
            region_offset,
            region_size,
        );
    }

    fn supports_shuffle2x(&self) -> (r: bool) {
        false
    }

    fn prepare_shuffle2x(&self, _data: &mut [u16]) {
    }

    fn finish_shuffle2x(&self, _data: &mut [u16]) {
    }

    fn muladd_shuffle2x(&self, dst: &mut [u16], src: &[u16], scalar: u16) {
        self.muladd(dst, src, scalar);
    }

    fn muladd_region_shuffle2x(
        &self,
        destinations: &mut [Vec<u16>],
        sources: &[&[u16]],
        coefficients: &[&[u16]],
        region_offset: usize,
        region_size: usize,
    ) {
        self.muladd_region(destinations, sources, coefficients, region_offset, region_size);
    }
}

/// What a region needs for the lookups by source covers what it needs element by element.
proof fn lemma_covered_fits(
    destinations: Seq<Seq<u16>>,
    sources: Seq<Seq<u16>>,
    coefficients: Seq<Seq<u16>>,
    offset: int,
    size: int,
)
    requires
        kernel::region_covered(destinations, sources, coefficients, offset, size),
    ensures
        scalar::region_fits(destinations, sources, coefficients, offset, size),
{
}

} // verus!
