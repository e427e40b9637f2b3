//! The operations on slices that the rest of the library uses.

use vstd::prelude::*;

use crate::galois::bulk;
use crate::galois::field;
use crate::galois::scalar;
use crate::galois::simd::batch;
use crate::galois::simd::shuffle2x;
use crate::galois::simd::{GaloisSimdStrategy, Priority, SimdRegistry};

verus! {

/// Multiply a slice of elements by a scalar.
pub fn gf_mul_slice(scalar: u16, data: &mut [u16])
    ensures
        final(data)@ == bulk::mul_each(old(data)@, scalar),
{
    batch::mul_slice_table(scalar, data);
}

/// Multiply and add: `dst[i] ^= src[i] * scalar`, as far as both slices reach.
pub fn gf_muladd(dst: &mut [u16], src: &[u16], scalar: u16)
    ensures
        final(dst)@ == bulk::add_scaled(old(dst)@, src@, scalar),
{
    batch::muladd_table(dst, src, scalar);
}

/// Add a multiple of one source to each of several rows: `destinations[r] ^= source *
/// coefficients[r]`.
pub fn gf_muladd_column(destinations: &mut [Vec<u16>], source: &[u16], coefficients: &[u16])
    ensures
        final(destinations)@.len() == old(destinations)@.len(),
        forall|r: int|
            0 <= r < old(destinations)@.len() ==> #[trigger] final(destinations)@[r]@ == (if r
                < coefficients@.len() {
                bulk::add_scaled(old(destinations)@[r]@, source@, coefficients@[r])
            } else {
                old(destinations)@[r]@
            }),
{
    let n: usize = if destinations.len() <= coefficients.len() {
        destinations.len()
    } else {
        coefficients.len()
    };
    for r in 0..n
        invariant
            n <= coefficients@.len(),
            n <= destinations@.len(),
            n == destinations@.len() || n == coefficients@.len(),
            destinations@.len() == old(destinations)@.len(),
            forall|k: int|
                0 <= k < r ==> #[trigger] destinations@[k]@ == bulk::add_scaled(
                    old(destinations)@[k]@,
                    source@,
                    coefficients@[k],
                ),
            forall|k: int|
                r <= k < destinations@.len() ==> #[trigger] destinations@[k]@ == old(
                    destinations,
                )@[k]@,
    {
        gf_muladd(destinations[r].as_mut_slice(), source, coefficients[r]);
    }
}

/// Add several sources, each times its coefficient, to one row: `dst ^= sum of sources[s] *
/// coefficients[s]`, each source as far as it reaches.
pub fn gf_muladd_multi(dst: &mut [u16], sources: &[&[u16]], coefficients: &[u16])
    ensures
        final(dst)@ == bulk::add_weighted(
            old(dst)@,
            bulk::slice_views(sources@),
            coefficients@,
        ),
{
    let n: usize = if sources.len() <= coefficients.len() {
        sources.len()
    } else {
        coefficients.len()
    };
    let ghost views = bulk::slice_views(sources@);
    proof {
        assert forall|i: int| 0 <= i < dst@.len() implies #[trigger] dst@[i] ^ 0 == dst@[i] by {
            field::law_xor(dst@[i], 0, 0);
        }
    }
    for s in 0..n
        invariant
            n <= sources@.len(),
            n <= coefficients@.len(),
            views == bulk::slice_views(sources@),
            dst@.len() == old(dst)@.len(),
            forall|i: int|
                0 <= i < dst@.len() ==> #[trigger] dst@[i] == old(dst)@[i] ^ bulk::weighted_sum(
                    views,
                    coefficients@,
                    s as nat,
                    i,
                ),
    {
        let ghost before = dst@;
        gf_muladd(dst, sources[s], coefficients[s]);
        proof {
            assert(views[s as int] == sources@[s as int]@);
            assert forall|i: int| 0 <= i < dst@.len() implies #[trigger] dst@[i] == old(dst)@[i]
                ^ bulk::weighted_sum(views, coefficients@, (s + 1) as nat, i) by {
                let w = bulk::weighted_sum(views, coefficients@, s as nat, i);
                let t = bulk::term(views, coefficients@, s as int, i);
                bulk::lemma_weighted_sum_next(views, coefficients@, s as nat, i);
                field::law_xor(old(dst)@[i], w, t);
                field::law_xor(before[i], 0, 0);
                assert(before[i] == old(dst)@[i] ^ w);
            }
        }
    }
    assert(dst@ =~= bulk::add_weighted(old(dst)@, views, coefficients@));
}

/// Read bytes as little-endian elements.
pub fn bytes_to_u16_simd(bytes: &[u8], output: &mut [u16])
    requires
        bytes@.len() == 2 * old(output)@.len(),
    ensures
        final(output)@ == bulk::words(bytes@),
{
    scalar::bytes_to_u16_scalar(bytes, output);
}

/// Read bytes as little-endian elements. Returns whether all of them were 0.
pub fn bytes_to_u16_simd_with_zero_flag(bytes: &[u8], output: &mut [u16]) -> (all_zero: bool)
    requires
        bytes@.len() == 2 * old(output)@.len(),
    ensures
        final(output)@ == bulk::words(bytes@),
        all_zero <==> forall|i: int| 0 <= i < bytes@.len() ==> bytes@[i] == 0,
{
    scalar::bytes_to_u16_scalar(bytes, output);
    let mut all_zero = true;
    let n: usize = output.len();
    for i in 0..n
        invariant
            n == output@.len(),
            all_zero <==> forall|j: int| 0 <= j < i ==> #[trigger] output@[j] == 0,
    {
        if output[i] != 0 {
            all_zero = false;
        }
    }
    proof {
        if all_zero {
            assert forall|i: int| 0 <= i < bytes@.len() implies bytes@[i] == 0 by {
                let j = i / 2;
                assert(output@[j] == 0);
                lemma_word_zero(bytes@[2 * j], bytes@[2 * j + 1]);
                assert(i == 2 * j || i == 2 * j + 1);
            }
        } else {
            let j = choose|j: int| 0 <= j < n && #[trigger] output@[j] != 0;
            lemma_word_zero(bytes@[2 * j], bytes@[2 * j + 1]);
            assert(bytes@[2 * j] != 0 || bytes@[2 * j + 1] != 0);
        }
    }
    all_zero
}

/// An element is 0 exactly if both of its bytes are.
proof fn lemma_word_zero(lo: u8, hi: u8)
    ensures
        bulk::word(lo, hi) == 0 <==> lo == 0 && hi == 0,
{
    assert(bulk::word(lo, hi) == 0 <==> lo == 0 && hi == 0) by (bit_vector);
}

/// Write elements as little-endian bytes.
pub fn u16_to_bytes_simd(input: &[u16], bytes: &mut [u8])
    requires
        old(bytes)@.len() == 2 * input@.len(),
    ensures
        final(bytes)@ == bulk::word_bytes(input@),
{
    scalar::u16_to_bytes_scalar(input, bytes);
}

/// The names and priorities of the strategies of a registry.
pub fn list_simd_strategies<S: GaloisSimdStrategy>(registry: &SimdRegistry<S>) -> (r: Vec<
    (&'static str, Priority),
>)
    ensures
        r@.len() == registry.strategies@.len(),
        forall|i: int|
            0 <= i < r@.len() ==> ((#[trigger] r@[i]).0@, r@[i].1) == registry.listing()[i],
{
    registry.list_available()
}

/// The name of the strategy that a registry has selected.
pub fn get_selected_simd_strategy<S: GaloisSimdStrategy>(registry: &SimdRegistry<S>) -> (r: Option<
    &'static str,
>)
    requires
        registry.wf(),
    ensures
        r is Some <==> registry.selected is Some,
        registry.selected matches Some(i) ==> r->0@ == registry.strategies@[i as int].named(),
{
    match registry.get_selected() {
        Some(strategy) => Some(strategy.name()),
        None => None,
    }
}

/// A registry has selected a strategy that works on the shuffle2x layout.
pub open spec fn shuffling<S: GaloisSimdStrategy>(registry: SimdRegistry<S>) -> bool {
    registry.selected matches Some(i) && registry.strategies@[i as int].shuffles()
}

/// Check whether the selected strategy works on the shuffle2x layout.
pub fn supports_shuffle2x<S: GaloisSimdStrategy>(registry: &SimdRegistry<S>) -> (r: bool)
    requires
        registry.wf(),
    ensures
        r == shuffling(*registry),
{
    match registry.get_selected() {
        Some(strategy) => strategy.supports_shuffle2x(),
        None => false,
    }
}

/// Convert to the shuffle2x layout, in place, if the selected strategy works on it.
pub fn prepare_shuffle2x<S: GaloisSimdStrategy>(registry: &SimdRegistry<S>, data: &mut [u16])
    requires
        registry.wf(),
    ensures
        final(data)@ == (if shuffling(*registry) {
            shuffle2x::shuffled(old(data)@)
        } else {
            old(data)@
        }),
{
    if let Some(strategy) = registry.get_selected() {
        strategy.prepare_shuffle2x(data);
    }
}

/// Convert back from the shuffle2x layout, in place, if the selected strategy works on it.
pub fn finish_shuffle2x<S: GaloisSimdStrategy>(registry: &SimdRegistry<S>, data: &mut [u16])
    requires
        registry.wf(),
    ensures
        final(data)@ == (if shuffling(*registry) {
            shuffle2x::unshuffled(old(data)@)
        } else {
            old(data)@
        }),
{
    if let Some(strategy) = registry.get_selected() {
        strategy.finish_shuffle2x(data);
    }
}

/// Multiply and add on elements in the shuffle2x layout; on plain elements if the selected
/// strategy does not work on it.
pub fn gf_muladd_shuffle2x<S: GaloisSimdStrategy>(
    registry: &SimdRegistry<S>,
    dst: &mut [u16],
    src: &[u16],
    scalar: u16,
)
    requires
        registry.wf(),
    ensures
        final(dst)@ == (if shuffling(*registry) {
            shuffle2x::add_shuffled(old(dst)@, src@, scalar)
        } else {
            bulk::add_scaled(old(dst)@, src@, scalar)
        }),
{
    if let Some(strategy) = registry.get_selected() {
        if strategy.supports_shuffle2x() {
            strategy.muladd_shuffle2x(dst, src, scalar);
            return;
        }
    }
    gf_muladd(dst, src, scalar);
}

/// Add a multiple of one source to each of several rows, all in the shuffle2x layout; on plain
/// elements if the selected strategy does not work on it.
pub fn gf_muladd_column_shuffle2x<S: GaloisSimdStrategy>(
    registry: &SimdRegistry<S>,
    destinations: &mut [Vec<u16>],
    source: &[u16],
    coefficients: &[u16],
)
    requires
        registry.wf(),
    ensures
        final(destinations)@.len() == old(destinations)@.len(),
        forall|r: int|
            0 <= r < old(destinations)@.len() ==> #[trigger] final(destinations)@[r]@ == (if r
                >= coefficients@.len() {
                old(destinations)@[r]@
            } else if shuffling(*registry) {
                shuffle2x::add_shuffled(old(destinations)@[r]@, source@, coefficients@[r])
            } else {
                bulk::add_scaled(old(destinations)@[r]@, source@, coefficients@[r])
            }),
{
    let n: usize = if destinations.len() <= coefficients.len() {
        destinations.len()
    } else {
        coefficients.len()
    };
    for r in 0..n
        invariant
            registry.wf(),
            n <= coefficients@.len(),
            n <= destinations@.len(),
            n == destinations@.len() || n == coefficients@.len(),
            destinations@.len() == old(destinations)@.len(),
            forall|k: int|
                0 <= k < r ==> #[trigger] destinations@[k]@ == (if shuffling(*registry) {
                    shuffle2x::add_shuffled(old(destinations)@[k]@, source@, coefficients@[k])
                } else {
                    bulk::add_scaled(old(destinations)@[k]@, source@, coefficients@[k])
                }),
            forall|k: int|
                r <= k < destinations@.len() ==> #[trigger] destinations@[k]@ == old(
                    destinations,
                )@[k]@,
    {
        gf_muladd_shuffle2x(
            registry,
            destinations[r].as_mut_slice(),
            source,
            coefficients[r],
        );
    }
}

} // verus!
