//! Interchangeable ways to compute the operations on slices, and the choice among them.

use vstd::prelude::*;

use crate::galois::bulk;
use crate::galois::simd::x86::{CpuFeatures, X86Strategy};

pub mod batch;
pub mod clmul;
pub mod kernel;
pub mod lut;
pub mod shuffle2x;
pub mod x86;

verus! {

/// Priority of a strategy. The later ones are preferred.
#[derive(Debug, Clone, Copy, PartialEq, Eq, PartialOrd, Ord, Structural)]
pub enum Priority {
    Fallback,
    Basic,
    Enhanced,
    Advanced,
    Optimal,
}

impl Priority {
    /// The number by which priorities are compared.
    pub open spec fn spec_rank(self) -> u8 {
        match self {
            Priority::Fallback => 0,
            Priority::Basic => 10,
            Priority::Enhanced => 20,
            Priority::Advanced => 30,
            Priority::Optimal => 40,
        }
    }

    /// The number by which priorities are compared.
    #[verifier::when_used_as_spec(spec_rank)]
    pub fn rank(self) -> (r: u8)
        ensures
            r == self.spec_rank(),
    {
        match self {
            Priority::Fallback => 0,
            Priority::Basic => 10,
            Priority::Enhanced => 20,
            Priority::Advanced => 30,
            Priority::Optimal => 40,
        }
    }
}

/// A way to compute the operations on slices.
pub trait GaloisSimdStrategy: Sized {
    /// The name of the strategy.
    spec fn named(&self) -> Seq<char>;

    /// Whether the strategy can be used on a CPU with the given features.
    spec fn usable(&self, cpu: CpuFeatures) -> bool;

    /// The priority of the strategy.
    spec fn ranked(&self) -> Priority;

    /// Whether the strategy works on the shuffle2x layout.
    spec fn shuffles(&self) -> bool;

    /// Name of this strategy.
    fn name(&self) -> (r: &'static str)
        ensures
            r@ == self.named(),
    ;

    /// Check whether this strategy can be used on a CPU with the given features.
    fn is_available(&self, cpu: CpuFeatures) -> (r: bool)
        ensures
            r == self.usable(cpu),
    ;

    /// Priority for the selection of a strategy.
    fn priority(&self) -> (r: Priority)
        ensures
            r == self.ranked(),
    ;

    /// Multiply a slice by a scalar.
    fn mul_slice(&self, scalar: u16, data: &mut [u16])
        ensures
            final(data)@ == bulk::mul_each(old(data)@, scalar),
    ;

    /// Multiply and add: `dst[i] ^= src[i] * scalar`.
    fn muladd(&self, dst: &mut [u16], src: &[u16], scalar: u16)
        ensures
            final(dst)@ == bulk::add_scaled(old(dst)@, src@, scalar),
    ;

    /// Multiply and add on a region of several destinations.
    fn muladd_region(
        &self,
        destinations: &mut [Vec<u16>],
        sources: &[&[u16]],
        coefficients: &[&[u16]],
        region_offset: usize,
        region_size: usize,
    )
        requires
            kernel::region_covered(
                bulk::row_views(old(destinations)@),
                bulk::slice_views(sources@),
                bulk::slice_views(coefficients@),
                region_offset as int,
                region_size as int,
            ),
        ensures
            final(destinations)@.len() == old(destinations)@.len(),
            forall|d: int|
                0 <= d < old(destinations)@.len() ==> #[trigger] final(destinations)@[d]@
                    == bulk::add_weighted_region(
                    old(destinations)@[d]@,
                    bulk::slice_views(sources@),
                    coefficients@[d]@,
                    region_offset as int,
                    region_size as int,
                ),
    ;

    /// Whether this strategy works on the shuffle2x layout.
    fn supports_shuffle2x(&self) -> (r: bool)
        ensures
            r == self.shuffles(),
    ;

    /// Convert to the shuffle2x layout, in place; nothing where it is not supported.
    fn prepare_shuffle2x(&self, data: &mut [u16])
        ensures
            final(data)@ == (if self.shuffles() {
                shuffle2x::shuffled(old(data)@)
            } else {
                old(data)@
            }),
    ;

    /// Convert back from the shuffle2x layout, in place; nothing where it is not supported.
    fn finish_shuffle2x(&self, data: &mut [u16])
        ensures
            final(data)@ == (if self.shuffles() {
                shuffle2x::unshuffled(old(data)@)
            } else {
                old(data)@
            }),
    ;

    /// Multiply and add on the shuffle2x layout; on plain elements where it is not supported.
    fn muladd_shuffle2x(&self, dst: &mut [u16], src: &[u16], scalar: u16)
        ensures
            final(dst)@ == (if self.shuffles() {
                shuffle2x::add_shuffled(old(dst)@, src@, scalar)
            } else {
                bulk::add_scaled(old(dst)@, src@, scalar)
            }),
    ;

    /// Multiply and add on a region of several destinations in the shuffle2x layout; on plain
    /// elements where it is not supported.
    fn muladd_region_shuffle2x(
        &self,
        destinations: &mut [Vec<u16>],
        sources: &[&[u16]],
        coefficients: &[&[u16]],
        region_offset: usize,
        region_size: usize,
    )
        requires
            kernel::region_covered(
                bulk::row_views(old(destinations)@),
                bulk::slice_views(sources@),
                bulk::slice_views(coefficients@),
                region_offset as int,
                region_size as int,
            ),
        ensures
            final(destinations)@.len() == old(destinations)@.len(),
            forall|d: int|
                0 <= d < old(destinations)@.len() ==> #[trigger] final(destinations)@[d]@ == (
                if self.shuffles() {
                    shuffle2x::add_shuffled_region(
                        old(destinations)@[d]@,
                        bulk::slice_views(sources@),
                        coefficients@[d]@,
                        region_offset as int,
                        region_size as int,
                    )
                } else {
                    bulk::add_weighted_region(
                        old(destinations)@[d]@,
                        bulk::slice_views(sources@),
                        coefficients@[d]@,
                        region_offset as int,
                        region_size as int,
                    )
                }),
    ;
}

/// The strategies that can be used on a CPU, and the one selected.
pub struct SimdRegistry<S: GaloisSimdStrategy> {
    pub strategies: Vec<S>,
    pub selected: Option<usize>,
}

impl<S: GaloisSimdStrategy> SimdRegistry<S> {
    /// A selection, if any, is one of the strategies.
    pub open spec fn wf(&self) -> bool {
        self.selected matches Some(i) ==> i < self.strategies@.len()
    }

    /// Strategy `i` is the first of those with the highest priority.
    pub open spec fn is_best(&self, i: int) -> bool {
        &&& 0 <= i < self.strategies@.len()
        &&& forall|j: int|
            0 <= j < self.strategies@.len() ==> (#[trigger] self.strategies@[j]).ranked().rank()
                <= self.strategies@[i].ranked().rank()
        &&& forall|j: int|
            0 <= j < i ==> (#[trigger] self.strategies@[j]).ranked().rank()
                < self.strategies@[i].ranked().rank()
    }

    /// The names and priorities of the strategies, in the order of their registration.
    pub open spec fn listing(&self) -> Seq<(Seq<char>, Priority)> {
        Seq::new(
            self.strategies@.len(),
            |i: int| (self.strategies@[i].named(), self.strategies@[i].ranked()),
        )
    }

    /// An empty registry.
    pub fn empty() -> (registry: SimdRegistry<S>)
        ensures
            registry.strategies@.len() == 0,
            registry.selected is None,
    {
        SimdRegistry { strategies: Vec::new(), selected: None }
    }

    /// Add a strategy, if the CPU can use it.
    pub fn register(&mut self, strategy: S, cpu: CpuFeatures)
        ensures
            final(self).selected == old(self).selected,
            final(self).strategies@ == (if strategy.usable(cpu) {
                old(self).strategies@.push(strategy)
            } else {
                old(self).strategies@
            }),
    {
        if strategy.is_available(cpu) {
            self.strategies.push(strategy);
        }
    }

    /// Select the strategy with the highest priority, the first of them if there are several.
    pub fn select_best(&mut self)
        ensures
            final(self).strategies@ == old(self).strategies@,
            old(self).strategies@.len() == 0 ==> final(self).selected == old(self).selected,
            old(self).strategies@.len() > 0 ==> (final(self).selected matches Some(i) && final(self).is_best(i as int)),
    {
        if self.strategies.len() == 0 {
            return;
        }
        let mut best: usize = 0;
        let mut best_priority = self.strategies[0].priority();
        let n: usize = self.strategies.len();
        for i in 1..n
            invariant
                n == self.strategies@.len(),
                best < i,
                best < n,
                best_priority == self.strategies@[best as int].ranked(),
                self.strategies@ == old(self).strategies@,
                forall|j: int|
                    0 <= j < i ==> (#[trigger] self.strategies@[j]).ranked().rank()
                        <= best_priority.rank(),
                forall|j: int|
                    0 <= j < best ==> (#[trigger] self.strategies@[j]).ranked().rank()
                        < best_priority.rank(),
        {
            let priority = self.strategies[i].priority();
            if priority.rank() > best_priority.rank() {
                best_priority = priority;
                best = i;
            }
        }
        self.selected = Some(best);
    }

    /// The selected strategy.
    pub fn get_selected(&self) -> (r: Option<&S>)
        requires
            self.wf(),
        ensures
            r is Some <==> self.selected is Some,
            self.selected matches Some(i) ==> *r->0 == self.strategies@[i as int],
    {
        match self.selected {
            Some(i) => Some(&self.strategies[i]),
            None => None,
        }
    }

    /// Select the first strategy of the given name. `false`, with the selection unchanged, if there
    /// is none.
    pub fn select_by_name(&mut self, name: &str) -> (found: bool)
        ensures
            final(self).strategies@ == old(self).strategies@,
            found <==> exists|i: int|
                0 <= i < old(self).strategies@.len() && (#[trigger] old(self).strategies@[i]).named() == name@,
            !found ==> final(self).selected == old(self).selected,
            found ==> (final(self).selected matches Some(i) && i < old(self).strategies@.len()
                && old(self).strategies@[i as int].named() == name@ && forall|j: int|
                0 <= j < i ==> (#[trigger] old(self).strategies@[j]).named() != name@),
    {
        let n: usize = self.strategies.len();
        for i in 0..n
            invariant
                n == self.strategies@.len(),
                *self == *old(self),
                forall|j: int| 0 <= j < i ==> (#[trigger] self.strategies@[j]).named() != name@,
        {
            if self.strategies[i].name().to_owned() == name.to_owned() {
                self.selected = Some(i);
                assert(self.strategies@[i as int].named() == name@);
                return true;
            }
        }
        false
    }

    /// The names and priorities of the strategies.
    pub fn list_available(&self) -> (r: Vec<(&'static str, Priority)>)
        ensures
            r@.len() == self.strategies@.len(),
            forall|i: int|
                0 <= i < r@.len() ==> ((#[trigger] r@[i]).0@, r@[i].1) == self.listing()[i],
    {
        let mut r: Vec<(&'static str, Priority)> = Vec::new();
        let n: usize = self.strategies.len();
        for i in 0..n
            invariant
                n == self.strategies@.len(),
                r@.len() == i,
                forall|j: int|
                    0 <= j < r@.len() ==> ((#[trigger] r@[j]).0@, r@[j].1) == self.listing()[j],
        {
            r.push((self.strategies[i].name(), self.strategies[i].priority()));
        }
        r
    }
}

impl SimdRegistry<X86Strategy> {
    /// Create a registry of the strategies that a CPU with the given features can use, with the
    /// best of them selected.
    pub fn new(cpu: CpuFeatures) -> (registry: SimdRegistry<X86Strategy>)
        ensures
            registry.wf(),
            registry.listing() == x86::usable_strategies(cpu),
            registry.strategies@.len() == 0 ==> registry.selected is None,
            registry.strategies@.len() > 0 ==> (registry.selected matches Some(i)
                && registry.is_best(i as int)),
    {
        let mut registry: SimdRegistry<X86Strategy> = SimdRegistry::empty();
        x86::register_strategies(&mut registry, cpu);
        registry.select_best();
        registry
    }
}

/// The registry of the strategies that a CPU with the given features can use.
pub fn get_registry(cpu: CpuFeatures) -> (registry: SimdRegistry<X86Strategy>)
    ensures
        registry.wf(),
        registry.listing() == x86::usable_strategies(cpu),
        registry.strategies@.len() == 0 ==> registry.selected is None,
        registry.strategies@.len() > 0 ==> (registry.selected matches Some(i) && registry.is_best(
            i as int,
        )),
{
    SimdRegistry::new(cpu)
}

/// The registry of the strategies that a CPU with the given features can use. If a strategy of
/// the name asked for is among them, it is selected; else the best one is.
pub fn init_registry_with_config(cpu: CpuFeatures, force_strategy: Option<&str>) -> (registry:
    SimdRegistry<X86Strategy>)
    ensures
        registry.wf(),
        registry.listing() == x86::usable_strategies(cpu),
        force_strategy matches Some(name) && (exists|i: int|
            0 <= i < registry.listing().len() && (#[trigger] registry.listing()[i]).0 == name@)
            ==> (registry.selected matches Some(i) && registry.listing()[i as int].0
            == force_strategy->0@),
        !(force_strategy matches Some(name) && exists|i: int|
            0 <= i < registry.listing().len() && (#[trigger] registry.listing()[i]).0 == name@)
            && registry.strategies@.len() > 0 ==> (registry.selected matches Some(i)
            && registry.is_best(i as int)),
        registry.strategies@.len() == 0 ==> registry.selected is None,
{
    let mut registry = SimdRegistry::new(cpu);
    let ghost before = registry;
    if let Some(name) = force_strategy {
        let found = registry.select_by_name(name);
        proof {
            assert(registry.listing() =~= before.listing());
            if exists|i: int|
                0 <= i < registry.listing().len() && (#[trigger] registry.listing()[i]).0
                    == name@ {
                let i = choose|i: int|
                    0 <= i < registry.listing().len() && (#[trigger] registry.listing()[i]).0
                        == name@;
                assert(before.strategies@[i].named() == name@);
            }
            if found {
                assert(registry.listing()[registry.selected->0 as int].0 == name@);
            }
        }
    }
    registry
}

/// Priorities rise from the fallback to the optimal one.
pub proof fn law_priorities_rise()
    ensures
        Priority::Fallback.rank() < Priority::Basic.rank(),
        Priority::Basic.rank() < Priority::Enhanced.rank(),
        Priority::Enhanced.rank() < Priority::Advanced.rank(),
        Priority::Advanced.rank() < Priority::Optimal.rank(),
{
}

} // verus!
