//! The strategies for x86-64, and the CPU features that they need.

use vstd::prelude::*;

use crate::galois::simd::{GaloisSimdStrategy, Priority, SimdRegistry};

pub mod avx2;
pub mod pclmul;
pub mod sse;

verus! {

/// Features of a CPU.
#[derive(Debug, Clone, Copy, PartialEq, Eq, Structural)]
pub struct CpuFeatures {
    pub sse2: bool,
    pub ssse3: bool,
    pub sse41: bool,
    pub avx2: bool,
    pub pclmulqdq: bool,
}

/// One of the strategies for x86-64.
pub enum X86Strategy {
    Sse2(sse::Sse2Strategy),
    Ssse3(sse::Ssse3Strategy),
    Avx2Shuffle(avx2::Avx2ShuffleStrategy),
    Pclmul(pclmul::PclmulStrategy),
    Avx2Pclmul(pclmul::Avx2PclmulStrategy),
}

impl GaloisSimdStrategy for X86Strategy {
    open spec fn named(&self) -> Seq<char> {
        match self {
            X86Strategy::Sse2(s) => s.named(),
            X86Strategy::Ssse3(s) => s.named(),
            X86Strategy::Avx2Shuffle(s) => s.named(),
            X86Strategy::Pclmul(s) => s.named(),
            X86Strategy::Avx2Pclmul(s) => s.named(),
        }
    }

    open spec fn usable(&self, cpu: CpuFeatures) -> bool {
        match self {
            X86Strategy::Sse2(s) => s.usable(cpu),
            X86Strategy::Ssse3(s) => s.usable(cpu),
            X86Strategy::Avx2Shuffle(s) => s.usable(cpu),
            X86Strategy::Pclmul(s) => s.usable(cpu),
            X86Strategy::Avx2Pclmul(s) => s.usable(cpu),
        }
    }

    open spec fn ranked(&self) -> Priority {
        match self {
            X86Strategy::Sse2(s) => s.ranked(),
            X86Strategy::Ssse3(s) => s.ranked(),
            X86Strategy::Avx2Shuffle(s) => s.ranked(),
            X86Strategy::Pclmul(s) => s.ranked(),
            X86Strategy::Avx2Pclmul(s) => s.ranked(),
        }
    }

    open spec fn shuffles(&self) -> bool {
        match self {
            X86Strategy::Sse2(s) => s.shuffles(),
            X86Strategy::Ssse3(s) => s.shuffles(),
            X86Strategy::Avx2Shuffle(s) => s.shuffles(),
            X86Strategy::Pclmul(s) => s.shuffles(),
            X86Strategy::Avx2Pclmul(s) => s.shuffles(),
        }
    }

    fn name(&self) -> (r: &'static str) {
        match self {
            X86Strategy::Sse2(s) => s.name(),
            X86Strategy::Ssse3(s) => s.name(),
            X86Strategy::Avx2Shuffle(s) => s.name(),
            X86Strategy::Pclmul(s) => s.name(),
            X86Strategy::Avx2Pclmul(s) => s.name(),
        }
    }

    fn is_available(&self, cpu: CpuFeatures) -> (r: bool) {
        match self {
            X86Strategy::Sse2(s) => s.is_available(cpu),
            X86Strategy::Ssse3(s) => s.is_available(cpu),
            X86Strategy::Avx2Shuffle(s) => s.is_available(cpu),
            X86Strategy::Pclmul(s) => s.is_available(cpu),
            X86Strategy::Avx2Pclmul(s) => s.is_available(cpu),
        }
    }

    fn priority(&self) -> (r: Priority) {
        match self {
            X86Strategy::Sse2(s) => s.priority(),
            X86Strategy::Ssse3(s) => s.priority(),
            X86Strategy::Avx2Shuffle(s) => s.priority(),
            X86Strategy::Pclmul(s) => s.priority(),
            X86Strategy::Avx2Pclmul(s) => s.priority(),
        }
    }

    fn mul_slice(&self, scalar: u16, data: &mut [u16]) {
        match self {
            X86Strategy::Sse2(s) => s.mul_slice(scalar, data),
            X86Strategy::Ssse3(s) => s.mul_slice(scalar, data),
            X86Strategy::Avx2Shuffle(s) => s.mul_slice(scalar, data),
            X86Strategy::Pclmul(s) => s.mul_slice(scalar, data),
            X86Strategy::Avx2Pclmul(s) => s.mul_slice(scalar, data),
        }
    }

    fn muladd(&self, dst: &mut [u16], src: &[u16], scalar: u16) {
        match self {
            X86Strategy::Sse2(s) => s.muladd(dst, src, scalar),
            X86Strategy::Ssse3(s) => s.muladd(dst, src, scalar),
            X86Strategy::Avx2Shuffle(s) => s.muladd(dst, src, scalar),
            X86Strategy::Pclmul(s) => s.muladd(dst, src, scalar),
            X86Strategy::Avx2Pclmul(s) => s.muladd(dst, src, scalar),
        }
    }

    fn muladd_region(
        &self,
        destinations: &mut [Vec<u16>],
        sources: &[&[u16]],
        coefficients: &[&[u16]],
        region_offset: usize,
        region_size: usize,
    ) {
        match self {
            X86Strategy::Sse2(s) => s.muladd_region(destinations, sources, coefficients, region_offset, region_size),
            X86Strategy::Ssse3(s) => s.muladd_region(destinations, sources, coefficients, region_offset, region_size),
            X86Strategy::Avx2Shuffle(s) => s.muladd_region(destinations, sources, coefficients, region_offset, region_size),
            X86Strategy::Pclmul(s) => s.muladd_region(destinations, sources, coefficients, region_offset, region_size),
            X86Strategy::Avx2Pclmul(s) => s.muladd_region(destinations, sources, coefficients, region_offset, region_size),
        }
    }

    fn supports_shuffle2x(&self) -> (r: bool) {
        match self {
            X86Strategy::Sse2(s) => s.supports_shuffle2x(),
            X86Strategy::Ssse3(s) => s.supports_shuffle2x(),
            X86Strategy::Avx2Shuffle(s) => s.supports_shuffle2x(),
            X86Strategy::Pclmul(s) => s.supports_shuffle2x(),
            X86Strategy::Avx2Pclmul(s) => s.supports_shuffle2x(),
        }
    }

    fn prepare_shuffle2x(&self, data: &mut [u16]) {
        match self {
            X86Strategy::Sse2(s) => s.prepare_shuffle2x(data),
            X86Strategy::Ssse3(s) => s.prepare_shuffle2x(data),
            X86Strategy::Avx2Shuffle(s) => s.prepare_shuffle2x(data),
            X86Strategy::Pclmul(s) => s.prepare_shuffle2x(data),
            X86Strategy::Avx2Pclmul(s) => s.prepare_shuffle2x(data),
        }
    }

    fn finish_shuffle2x(&self, data: &mut [u16]) {
        match self {
            X86Strategy::Sse2(s) => s.finish_shuffle2x(data),
            X86Strategy::Ssse3(s) => s.finish_shuffle2x(data),
            X86Strategy::Avx2Shuffle(s) => s.finish_shuffle2x(data),
            X86Strategy::Pclmul(s) => s.finish_shuffle2x(data),
            X86Strategy::Avx2Pclmul(s) => s.finish_shuffle2x(data),
        }
    }

    fn muladd_shuffle2x(&self, dst: &mut [u16], src: &[u16], scalar: u16) {
        match self {
            X86Strategy::Sse2(s) => s.muladd_shuffle2x(dst, src, scalar),
            X86Strategy::Ssse3(s) => s.muladd_shuffle2x(dst, src, scalar),
            X86Strategy::Avx2Shuffle(s) => s.muladd_shuffle2x(dst, src, scalar),
            X86Strategy::Pclmul(s) => s.muladd_shuffle2x(dst, src, scalar),
            X86Strategy::Avx2Pclmul(s) => s.muladd_shuffle2x(dst, src, scalar),
        }
    }

    fn muladd_region_shuffle2x(
        &self,
        destinations: &mut [Vec<u16>],
        sources: &[&[u16]],
        coefficients: &[&[u16]],
        region_offset: usize,
        region_size: usize,
    ) {
        match self {
            X86Strategy::Sse2(s) => s.muladd_region_shuffle2x(destinations, sources, coefficients, region_offset, region_size),
            X86Strategy::Ssse3(s) => s.muladd_region_shuffle2x(destinations, sources, coefficients, region_offset, region_size),
            X86Strategy::Avx2Shuffle(s) => s.muladd_region_shuffle2x(destinations, sources, coefficients, region_offset, region_size),
            X86Strategy::Pclmul(s) => s.muladd_region_shuffle2x(destinations, sources, coefficients, region_offset, region_size),
            X86Strategy::Avx2Pclmul(s) => s.muladd_region_shuffle2x(destinations, sources, coefficients, region_offset, region_size),
        }
    }
}

/// The listing with one more entry, if it can be used.
pub open spec fn listed(
    list: Seq<(Seq<char>, Priority)>,
    usable: bool,
    name: Seq<char>,
    priority: Priority,
) -> Seq<(Seq<char>, Priority)> {
    if usable {
        list.push((name, priority))
    } else {
        list
    }
}

/// The names and priorities of the strategies that a CPU can use.
pub open spec fn usable_strategies(cpu: CpuFeatures) -> Seq<(Seq<char>, Priority)> {
    let l0 = Seq::<(Seq<char>, Priority)>::empty();
    let l1 = listed(l0, cpu.sse2, "SSE2"@, Priority::Basic);
    let l2 = listed(l1, cpu.ssse3, "SSSE3"@, Priority::Enhanced);
    let l3 = listed(l2, cpu.avx2, "AVX2-Shuffle"@, Priority::Optimal);
    let l4 = listed(
        l3,
        cpu.pclmulqdq && cpu.sse41 && cpu.ssse3,
        "PCLMUL"@,
        Priority::Advanced,
    );
    listed(
        l4,
        cpu.pclmulqdq && cpu.avx2 && cpu.sse41 && cpu.ssse3,
        "AVX2-PCLMUL"@,
        Priority::Optimal,
    )
}

/// Register every strategy that the CPU can use.
pub fn register_strategies(registry: &mut SimdRegistry<X86Strategy>, cpu: CpuFeatures)
    ensures
        final(registry).selected == old(registry).selected,
        final(registry).listing() == old(registry).listing() + usable_strategies(cpu),
        old(registry).strategies@.len() <= final(registry).strategies@.len(),
        forall|i: int|
            0 <= i < old(registry).strategies@.len() ==> #[trigger] final(registry).strategies@[i]
                == old(registry).strategies@[i],
{
    let ghost start = registry.listing();
    registry.register(X86Strategy::Sse2(sse::Sse2Strategy), cpu);
    let ghost l1 = registry.listing();
    registry.register(X86Strategy::Ssse3(sse::Ssse3Strategy), cpu);
    let ghost l2 = registry.listing();
    registry.register(X86Strategy::Avx2Shuffle(avx2::Avx2ShuffleStrategy), cpu);
    let ghost l3 = registry.listing();
    registry.register(X86Strategy::Pclmul(pclmul::PclmulStrategy), cpu);
    let ghost l4 = registry.listing();
    registry.register(X86Strategy::Avx2Pclmul(pclmul::Avx2PclmulStrategy), cpu);
    proof {
        assert(l1 =~= listed(start, cpu.sse2, "SSE2"@, Priority::Basic));
        assert(l2 =~= listed(l1, cpu.ssse3, "SSSE3"@, Priority::Enhanced));
        assert(l3 =~= listed(l2, cpu.avx2, "AVX2-Shuffle"@, Priority::Optimal));
        assert(l4 =~= listed(
            l3,
            cpu.pclmulqdq && cpu.sse41 && cpu.ssse3,
            "PCLMUL"@,
            Priority::Advanced,
        ));
        assert(registry.listing() =~= listed(
            l4,
            cpu.pclmulqdq && cpu.avx2 && cpu.sse41 && cpu.ssse3,
            "AVX2-PCLMUL"@,
            Priority::Optimal,
        ));
        assert(registry.listing() =~= start + usable_strategies(cpu));
    }
}

/// Check for a CPU feature by its name. Of other names than those of the five features, `false`.
pub fn has_feature(cpu: CpuFeatures, feature: &str) -> (r: bool)
    ensures
        r == (if feature@ == "sse2"@ {
            cpu.sse2
        } else if feature@ == "ssse3"@ {
            cpu.ssse3
        } else if feature@ == "sse4.1"@ {
            cpu.sse41
        } else if feature@ == "avx2"@ {
            cpu.avx2
        } else if feature@ == "pclmulqdq"@ {
            cpu.pclmulqdq
        } else {
            false
        }),
{
    let name: String = feature.to_owned();
    if name == "sse2".to_owned() {
        cpu.sse2
    } else if name == "ssse3".to_owned() {
        cpu.ssse3
    } else if name == "sse4.1".to_owned() {
        cpu.sse41
    } else if name == "avx2".to_owned() {
        cpu.avx2
    } else if name == "pclmulqdq".to_owned() {
        cpu.pclmulqdq
    } else {
        false
    }
}

/// Which strategies a CPU can use: each needs the instruction sets that it is made of.
pub proof fn law_strategies_need_their_instructions(strategy: X86Strategy, cpu: CpuFeatures)
    ensures
        strategy.usable(cpu) <==> match strategy {
            X86Strategy::Sse2(_) => cpu.sse2,
            X86Strategy::Ssse3(_) => cpu.ssse3,
            X86Strategy::Avx2Shuffle(_) => cpu.avx2,
            X86Strategy::Pclmul(_) => cpu.pclmulqdq && cpu.sse41 && cpu.ssse3,
            X86Strategy::Avx2Pclmul(_) => cpu.pclmulqdq && cpu.avx2 && cpu.sse41 && cpu.ssse3,
        },
        strategy.shuffles() <==> strategy is Avx2Shuffle,
        strategy.ranked() == match strategy {
            X86Strategy::Sse2(_) => Priority::Basic,
            X86Strategy::Ssse3(_) => Priority::Enhanced,
            X86Strategy::Pclmul(_) => Priority::Advanced,
            _ => Priority::Optimal,
        },
{
}

} // verus!
