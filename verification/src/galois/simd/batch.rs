//! Multiplication of whole slices through tables and by carry-less product.

use vstd::prelude::*;

use crate::galois::bulk;
use crate::galois::field;
use crate::galois::scalar;
use crate::galois::simd::clmul;
use crate::galois::simd::kernel;
use crate::galois::simd::kernel::StretchKernel;
use crate::galois::simd::lut::Multiply128Lut;

verus! {

/// The number of elements that two slices have in common.
fn common(dst: &[u16], src: &[u16]) -> (n: usize)
    ensures
        n == (if dst@.len() <= src@.len() {
            dst@.len()
        } else {
            src@.len()
        }),
{
    if dst.len() <= src.len() {
        dst.len()
    } else {
        src.len()
    }
}

/// Multiply every element of a slice by a scalar, through nibble tables.
pub fn mul_slice_table(scalar: u16, data: &mut [u16])
    ensures
        final(data)@ == bulk::mul_each(old(data)@, scalar),
{
    if scalar == 1 {
        proof {
            assert forall|i: int| 0 <= i < data@.len() implies bulk::mul_each(
                data@,
                1,
            )[i] == data@[i] by {
                field::law_product_one(data@[i]);
            }
            assert(bulk::mul_each(data@, 1) =~= data@);
        }
        return;
    }
    let lut = Multiply128Lut::new(scalar);
    let n: usize = data.len();
    for i in 0..n
        invariant
            lut.is_for(scalar),
            n == old(data)@.len(),
            data@.len() == n,
            forall|j: int|
                0 <= j < i ==> #[trigger] data@[j] == field::product(old(data)@[j], scalar),
            forall|j: int| i <= j < n ==> #[trigger] data@[j] == old(data)@[j],
    {
        data[i] = lut.mul(data[i]);
    }
    assert(data@ =~= bulk::mul_each(old(data)@, scalar));
}

/// Multiply every element of a slice by a scalar, by carry-less product.
pub fn mul_slice_carryless(scalar: u16, data: &mut [u16])
    ensures
        final(data)@ == bulk::mul_each(old(data)@, scalar),
{
    let n: usize = data.len();
    for i in 0..n
        invariant
            n == old(data)@.len(),
            data@.len() == n,
            forall|j: int|
                0 <= j < i ==> #[trigger] data@[j] == field::product(old(data)@[j], scalar),
            forall|j: int| i <= j < n ==> #[trigger] data@[j] == old(data)@[j],
    {
        data[i] = clmul::gf_mul_pclmul(data[i], scalar);
    }
    assert(data@ =~= bulk::mul_each(old(data)@, scalar));
}

/// Multiply and add through nibble tables, as far as both slices reach.
pub fn muladd_table(dst: &mut [u16], src: &[u16], scalar: u16)
    ensures
        final(dst)@ == bulk::add_scaled(old(dst)@, src@, scalar),
{
    if scalar == 0 {
        proof {
            scalar::lemma_add_scaled_zero(dst@, src@);
        }
        return;
    }
    let n: usize = common(dst, src);
    kernel::TableKernel.stretch(dst, src, scalar, 0, n);
    assert(dst@ =~= bulk::add_scaled(old(dst)@, src@, scalar));
}

/// Multiply and add by carry-less product, as far as both slices reach.
pub fn muladd_carryless(dst: &mut [u16], src: &[u16], scalar: u16)
    ensures
        final(dst)@ == bulk::add_scaled(old(dst)@, src@, scalar),
{
    if scalar == 0 {
        proof {
            scalar::lemma_add_scaled_zero(dst@, src@);
        }
        return;
    }
    let n: usize = common(dst, src);
    kernel::CarrylessKernel.stretch(dst, src, scalar, 0, n);
    assert(dst@ =~= bulk::add_scaled(old(dst)@, src@, scalar));
}

} // verus!
