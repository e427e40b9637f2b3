//! The layout of PAR2 packets.
//!
//! A packet has a header of 64 bytes: the magic (8 bytes), the length of the packet (8 bytes), the
//! MD5 digest of all that follows (16 bytes), the ID of the recovery set (16 bytes) and the type of
//! the packet (16 bytes). The body follows, filled up with zeros to a multiple of 4 bytes. Numbers
//! are little-endian.

use vstd::prelude::*;

use crate::hash;
use crate::numbers;

verus! {

/// The first bytes of every packet: "PAR2\0PKT".
pub const PAR2_MAGIC: [u8; 8] = [80, 65, 82, 50, 0, 80, 75, 84];

/// Main packet: "PAR 2.0\0Main\0\0\0\0".
pub const MAIN: [u8; 16] = [80, 65, 82, 32, 50, 46, 48, 0, 77, 97, 105, 110, 0, 0, 0, 0];

/// File description: "PAR 2.0\0FileDesc".
pub const FILE_DESC: [u8; 16] = [
    80, 65, 82, 32, 50, 46, 48, 0, 70, 105, 108, 101, 68, 101, 115, 99,
];

/// Input file slice checksums: "PAR 2.0\0IFSC\0\0\0\0".
pub const IFSC: [u8; 16] = [80, 65, 82, 32, 50, 46, 48, 0, 73, 70, 83, 67, 0, 0, 0, 0];

/// Recovery slice: "PAR 2.0\0RecvSlic".
pub const RECV_SLICE: [u8; 16] = [
    80, 65, 82, 32, 50, 46, 48, 0, 82, 101, 99, 118, 83, 108, 105, 99,
];

/// Creator: "PAR 2.0\0Creator\0".
pub const CREATOR: [u8; 16] = [
    80, 65, 82, 32, 50, 46, 48, 0, 67, 114, 101, 97, 116, 111, 114, 0,
];

/// The ID of a file or of a recovery set: an MD5 digest.
pub type FileHash = [u8; 16];

/// The little-endian bytes of a 64-bit number.
pub open spec fn le64(x: u64) -> Seq<u8> {
    numbers::le_bytes(x as nat, 8)
}

/// The little-endian bytes of a 32-bit number.
pub open spec fn le32(x: u32) -> Seq<u8> {
    numbers::le_bytes(x as nat, 4)
}

/// The 64-bit number at `p`.
pub open spec fn u64_at(data: Seq<u8>, p: int) -> u64 {
    numbers::number(data.subrange(p, p + 8)) as u64
}

/// The 32-bit number at `p`.
pub open spec fn u32_at(data: Seq<u8>, p: int) -> u32 {
    numbers::number(data.subrange(p, p + 4)) as u32
}

/// The 16 bytes at `p`.
pub open spec fn id_at(data: Seq<u8>, p: int) -> Seq<u8> {
    data.subrange(p, p + 16)
}

/// The next multiple of 4.
pub open spec fn aligned(n: int) -> int {
    (n + 3) / 4 * 4
}

/// Bytes filled up with zeros to a multiple of 4.
pub open spec fn padded(data: Seq<u8>) -> Seq<u8> {
    data + Seq::new((aligned(data.len() as int) - data.len()) as nat, |i: int| 0u8)
}

/// A packet of a type, in a recovery set, with a body.
pub open spec fn packet(kind: Seq<u8>, set_id: Seq<u8>, body: Seq<u8>) -> Seq<u8> {
    let content = padded(body);
    PAR2_MAGIC@ + le64((64 + content.len()) as u64) + hash::md5(set_id + kind + content) + set_id
        + kind + content
}

/// The bytes at `p` begin with the magic.
pub open spec fn has_magic(data: Seq<u8>, p: int) -> bool {
    data.subrange(p, p + 8) == PAR2_MAGIC@
}

/// The length that the header at `p` gives for its packet.
pub open spec fn packet_length(data: Seq<u8>, p: int) -> u64 {
    u64_at(data, p + 8)
}

/// The ID of the recovery set in the header at `p`.
pub open spec fn packet_set_id(data: Seq<u8>, p: int) -> Seq<u8> {
    id_at(data, p + 32)
}

/// The type in the header at `p`.
pub open spec fn packet_kind(data: Seq<u8>, p: int) -> Seq<u8> {
    id_at(data, p + 48)
}

/// A packet starts at `p`: the magic is there, and the length covers the header and does not
/// reach beyond the data.
pub open spec fn is_packet(data: Seq<u8>, p: int) -> bool {
    &&& p + 64 <= data.len()
    &&& has_magic(data, p)
    &&& 64 <= packet_length(data, p) <= data.len() - p
}

/// The body of the packet at `p`.
pub open spec fn packet_body(data: Seq<u8>, p: int) -> Seq<u8> {
    data.subrange(p + 64, p + packet_length(data, p))
}

/// The MD5 digest in the header of the packet at `p` is that of the rest of the packet.
pub open spec fn is_intact(data: Seq<u8>, p: int) -> bool {
    id_at(data, p + 16) == hash::md5(
        packet_set_id(data, p) + packet_kind(data, p) + packet_body(data, p),
    )
}

/// Where the packet after the one at `p` starts.
pub open spec fn after_packet(data: Seq<u8>, p: int) -> int {
    p + aligned(packet_length(data, p) as int)
}

/// The little-endian bytes of a number, and the number of its little-endian bytes, undo each
/// other.
pub proof fn law_little_endian(x: u64, y: u32)
    ensures
        le64(x).len() == 8,
        numbers::number(le64(x)) == x,
        le32(y).len() == 4,
        numbers::number(le32(y)) == y,
{
    numbers::lemma_pow_256();
    numbers::law_number_of_bytes(x as nat, 8);
    numbers::law_number_of_bytes(y as nat, 4);
}

/// A packet written into a file is there to be read: it starts where it was written, it is
/// intact, and its set, type and body are those it was written with, the body filled up to a
/// multiple of 4. The next packet follows it.
pub proof fn law_packet_reads_back(
    before: Seq<u8>,
    kind: Seq<u8>,
    set_id: Seq<u8>,
    body: Seq<u8>,
    after: Seq<u8>,
)
    requires
        kind.len() == 16,
        set_id.len() == 16,
        64 + padded(body).len() <= u64::MAX,
    ensures
        ({
            let p = before.len() as int;
            let data = before + packet(kind, set_id, body) + after;
            &&& is_packet(data, p)
            &&& is_intact(data, p)
            &&& packet_length(data, p) == 64 + padded(body).len()
            &&& packet_set_id(data, p) == set_id
            &&& packet_kind(data, p) == kind
            &&& packet_body(data, p) == padded(body)
            &&& after_packet(data, p) == p + packet(kind, set_id, body).len()
            &&& packet(kind, set_id, body).len() == 64 + padded(body).len()
        }),
{
    let p = before.len() as int;
    let content = padded(body);
    let length = (64 + content.len()) as u64;
    let digest = hash::md5(set_id + kind + content);
    let whole = packet(kind, set_id, body);
    let data = before + whole + after;
    law_little_endian(length, 0);
    assert(content.len() == aligned(body.len() as int));
    assert(whole.len() == 64 + content.len());
    assert(data.subrange(p, p + 8) =~= PAR2_MAGIC@);
    assert(data.subrange(p + 8, p + 16) =~= le64(length));
    assert(data.subrange(p + 16, p + 32) =~= digest);
    assert(data.subrange(p + 32, p + 48) =~= set_id);
    assert(data.subrange(p + 48, p + 64) =~= kind);
    assert(data.subrange(p + 64, p + 64 + content.len()) =~= content);
    assert(content.len() % 4 == 0);
}

} // verus!
