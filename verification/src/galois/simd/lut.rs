//! Multiplication by a fixed element through tables of its products with nibbles.

use vstd::prelude::*;

use crate::galois::bulk;
use crate::galois::element::gf_mul;
use crate::galois::field;

verus! {

/// The element whose nibble `k / 16` is `k % 16` and whose other nibbles are 0.
pub open spec fn nibble_value(k: int) -> u16 {
    ((k % 16) as u16) << ((4 * (k / 16)) as u16)
}

/// The products of one element with every value of each of the four nibbles: entry `16 * i + x`
/// belongs to the nibble `i` with the value `x`.
pub struct Multiply128Lut {
    /// Lower bytes of the products.
    pub lo: Vec<u8>,
    /// Upper bytes of the products.
    pub hi: Vec<u8>,
}

impl Multiply128Lut {
    /// The tables hold the products with `c`.
    pub open spec fn is_for(&self, c: u16) -> bool {
        &&& self.lo@.len() == 64
        &&& self.hi@.len() == 64
        &&& forall|k: int|
            0 <= k < 64 ==> #[trigger] self.lo@[k] == (field::product(nibble_value(k), c)
                & 0xff) as u8
        &&& forall|k: int|
            0 <= k < 64 ==> #[trigger] self.hi@[k] == (field::product(nibble_value(k), c)
                >> 8) as u8
    }

    /// Build the tables of an element.
    pub fn new(c: u16) -> (lut: Multiply128Lut)
        ensures
            lut.is_for(c),
    {
        let mut lo: Vec<u8> = Vec::with_capacity(64);
        let mut hi: Vec<u8> = Vec::with_capacity(64);
        for k in 0..64usize
            invariant
                lo@.len() == k,
                hi@.len() == k,
                forall|j: int|
                    0 <= j < k ==> #[trigger] lo@[j] == (field::product(nibble_value(j), c)
                        & 0xff) as u8,
                forall|j: int|
                    0 <= j < k ==> #[trigger] hi@[j] == (field::product(nibble_value(j), c)
                        >> 8) as u8,
        {
            let x: u16 = (k % 16) as u16;
            let shift: u16 = (4 * (k / 16)) as u16;
            let val: u16 = x << shift;
            assert(val == nibble_value(k as int));
            let prod: u16 = gf_mul(val, c);
            lo.push((prod & 0xff) as u8);
            hi.push((prod >> 8) as u8);
        }
        Multiply128Lut { lo, hi }
    }

    /// Multiply by the element of the tables: four lookups for the lower byte of the product and
    /// four for the upper one.
    pub fn mul(&self, a: u16) -> (r: u16)
        requires
            self.lo@.len() == 64,
            self.hi@.len() == 64,
        ensures
            forall|c: u16| #[trigger] self.is_for(c) ==> r == field::product(a, c),
    {
        proof {
            assert((a & 15) < 16 && ((a >> 4) & 15) < 16 && ((a >> 8) & 15) < 16 && (a >> 12) < 16)
                by (bit_vector);
        }
        let n0: usize = (a & 15) as usize;
        let n1: usize = 16 + ((a >> 4) & 15) as usize;
        let n2: usize = 32 + ((a >> 8) & 15) as usize;
        let n3: usize = 48 + (a >> 12) as usize;
        let lo: u8 = self.lo[n0] ^ self.lo[n1] ^ self.lo[n2] ^ self.lo[n3];
        let hi: u8 = self.hi[n0] ^ self.hi[n1] ^ self.hi[n2] ^ self.hi[n3];
        let r: u16 = (lo as u16) | ((hi as u16) << 8);
        proof {
            assert forall|c: u16| #[trigger] self.is_for(c) implies r == field::product(a, c) by {
                let v0 = nibble_value(n0 as int);
                let v1 = nibble_value(n1 as int);
                let v2 = nibble_value(n2 as int);
                let v3 = nibble_value(n3 as int);
                assert(v0 == (a & 15) << 0);
                assert(v1 == ((a >> 4) & 15) << 4);
                assert(v2 == ((a >> 8) & 15) << 8);
                assert(v3 == (a >> 12) << 12);
                lemma_nibbles(a, c);
                let p0 = field::product(v0, c);
                let p1 = field::product(v1, c);
                let p2 = field::product(v2, c);
                let p3 = field::product(v3, c);
                assert(bulk::word(
                    ((p0 & 0xff) as u8) ^ ((p1 & 0xff) as u8) ^ ((p2 & 0xff) as u8) ^ ((p3
                        & 0xff) as u8),
                    ((p0 >> 8) as u8) ^ ((p1 >> 8) as u8) ^ ((p2 >> 8) as u8) ^ ((p3 >> 8) as u8),
                ) == p0 ^ p1 ^ p2 ^ p3) by (bit_vector);
            }
        }
        r
    }
}

/// A product is the sum of the products of the four nibbles.
proof fn lemma_nibbles(a: u16, c: u16)
    ensures
        field::product(a, c) == field::product((a & 15) << 0, c) ^ field::product(
            ((a >> 4) & 15) << 4,
            c,
        ) ^ field::product(((a >> 8) & 15) << 8, c) ^ field::product((a >> 12) << 12, c),
{
    let v0 = (a & 15) << 0;
    let v1 = ((a >> 4) & 15) << 4;
    let v2 = ((a >> 8) & 15) << 8;
    let v3 = (a >> 12) << 12;
    assert(a == ((a & 15) << 0) ^ (((a >> 4) & 15) << 4) ^ (((a >> 8) & 15) << 8) ^ ((a >> 12)
        << 12)) by (bit_vector);
    field::law_product_distributes(v0, v1, c);
    field::law_product_distributes(v0 ^ v1, v2, c);
    field::law_product_distributes(v0 ^ v1 ^ v2, v3, c);
}

} // verus!
