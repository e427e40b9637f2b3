//! The digests of PAR2: MD5 and CRC32.

use md5::{Digest, Md5};
use vstd::prelude::*;

verus! {

/// What the `md-5` crate gives as the MD5 digest of some bytes.
pub uninterp spec fn md5_digest(data: Seq<u8>) -> Seq<u8>;

/// What the `crc32fast` crate gives as the CRC32 checksum of some bytes.
pub uninterp spec fn crc32_checksum(data: Seq<u8>) -> u32;

/// The 16 bytes of the MD5 digest.
pub open spec fn md5(data: Seq<u8>) -> Seq<u8> {
    Seq::new(16, |i: int| md5_digest(data)[i])
}

/// The digest is that of all bytes.
pub proof fn law_digest_is_of_all_bytes(data: Seq<u8>)
    ensures
        md5(data).len() == 16,
        forall|i: int| 0 <= i < 16 ==> #[trigger] md5(data)[i] == md5_digest(data)[i],
{
}

/// Calls `Md5::digest` of the `md-5` crate. The contract says that the 16 bytes of the result
/// depend on the data alone, and names them `md5_digest`.
#[verifier::external_body]
fn md5_of(data: &[u8]) -> (r: [u8; 16])
    ensures
        r@ == md5_digest(data@),
{
    Md5::digest(data).into()
}

/// Calls `crc32fast::hash`. The contract says that the result depends on the data alone, and names
/// it `crc32_checksum`.
#[verifier::external_body]
fn crc32_of(data: &[u8]) -> (r: u32)
    ensures
        r == crc32_checksum(data@),
{
    crc32fast::hash(data)
}

/// Compute the MD5 digest of some bytes.
pub fn compute_md5(data: &[u8]) -> (r: [u8; 16])
    ensures
        r@ == md5(data@),
{
    let r = md5_of(data);
    assert(r@ =~= md5(data@));
    r
}

/// Compute the CRC32 checksum of some bytes.
pub fn compute_crc32(data: &[u8]) -> (r: u32)
    ensures
        r == crc32_checksum(data@),
{
    crc32_of(data)
}

/// Compute the MD5 digest and the CRC32 checksum of some bytes.
pub fn compute_md5_crc32(data: &[u8]) -> (r: ([u8; 16], u32))
    ensures
        r.0@ == md5(data@),
        r.1 == crc32_checksum(data@),
{
    (compute_md5(data), compute_crc32(data))
}

/// Compare two digests.
pub fn same_digest(a: &[u8; 16], b: &[u8; 16]) -> (r: bool)
    ensures
        r == (a@ == b@),
{
    for i in 0..16usize
        invariant
            forall|j: int| 0 <= j < i ==> a@[j] == b@[j],
    {
        if a[i] != b[i] {
            return false;
        }
    }
    assert(a@ =~= b@);
    true
}

} // verus!
