//! The bytes of PAR2 files: what stands where in packets and their bodies.

use vstd::prelude::*;

use crate::blocks;
use crate::creator;
use crate::creator::SetView;
use crate::galois::sums;
use crate::hash;
use crate::numbers;
use crate::ordering;
use crate::packets;
use crate::parser;
use crate::parser::{ChecksumView, FileView, PacketType};
use crate::writer;

verus! {

/// The number that four bytes stand for, the lowest byte first.
pub open spec fn four(b0: u8, b1: u8, b2: u8, b3: u8) -> int {
    b0 + 0x100 * b1 + 0x1_0000 * b2 + 0x100_0000 * b3
}

/// Numbers are written with the lowest byte first.
pub proof fn law_numbers_begin_with_the_lowest_byte(x: u64, y: u32)
    ensures
        packets::le64(x).len() == 8,
        ({
            let b = packets::le64(x);
            x == four(b[0], b[1], b[2], b[3]) + 0x1_0000_0000 * four(b[4], b[5], b[6], b[7])
        }),
        packets::le32(y).len() == 4,
        ({
            let b = packets::le32(y);
            y == four(b[0], b[1], b[2], b[3])
        }),
{
    packets::law_little_endian(x, y);
    lemma_number_of_eight(packets::le64(x));
    lemma_number_of_four(packets::le32(y));
}

proof fn lemma_number_of_four(s: Seq<u8>)
    requires
        s.len() == 4,
    ensures
        numbers::number(s) == four(s[0], s[1], s[2], s[3]),
{
    reveal_with_fuel(numbers::number, 5);
    assert(s.skip(1)[0] == s[1]);
    assert(s.skip(1).skip(1)[0] == s[2]);
    assert(s.skip(1).skip(1).skip(1)[0] == s[3]);
    assert(s.skip(1).skip(1).skip(1).skip(1).len() == 0);
}

proof fn lemma_number_of_eight(s: Seq<u8>)
    requires
        s.len() == 8,
    ensures
        numbers::number(s) == four(s[0], s[1], s[2], s[3]) + 0x1_0000_0000 * four(
            s[4],
            s[5],
            s[6],
            s[7],
        ),
{
    reveal_with_fuel(numbers::number, 5);
    let t = s.skip(1).skip(1).skip(1).skip(1);
    assert(s.skip(1)[0] == s[1]);
    assert(s.skip(1).skip(1)[0] == s[2]);
    assert(s.skip(1).skip(1).skip(1)[0] == s[3]);
    lemma_number_of_four(t);
    assert(t[0] == s[4] && t[1] == s[5] && t[2] == s[6] && t[3] == s[7]);
}

/// Numbers are read with the lowest byte first.
pub proof fn law_numbers_are_read_with_the_lowest_byte_first(data: Seq<u8>, p: int)
    requires
        0 <= p,
        p + 8 <= data.len(),
    ensures
        packets::u64_at(data, p) == four(data[p], data[p + 1], data[p + 2], data[p + 3])
            + 0x1_0000_0000 * four(data[p + 4], data[p + 5], data[p + 6], data[p + 7]),
        packets::u32_at(data, p) == four(data[p], data[p + 1], data[p + 2], data[p + 3]),
{
    let s = data.subrange(p, p + 8);
    let t = data.subrange(p, p + 4);
    numbers::lemma_number_of_16(s);
    numbers::lemma_number_of_16(t);
    lemma_number_of_eight(s);
    lemma_number_of_four(t);
}

/// What packets begin with, and how they are told apart: "PAR2\0PKT", "PAR 2.0\0Main\0\0\0\0",
/// "PAR 2.0\0FileDesc", "PAR 2.0\0IFSC\0\0\0\0", "PAR 2.0\0RecvSlic" and "PAR 2.0\0Creator\0".
pub proof fn law_packets_are_told_apart()
    ensures
        packets::PAR2_MAGIC@ == seq![0x50u8, 0x41, 0x52, 0x32, 0, 0x50, 0x4b, 0x54],
        forall|kind: Seq<u8>|
            #![trigger parser::packet_type(kind)]
            {
                let par = seq![0x50u8, 0x41, 0x52, 0x20, 0x32, 0x2e, 0x30, 0];
                &&& parser::packet_type(kind) == PacketType::Main <==> kind == par + seq![
                    0x4du8,
                    0x61,
                    0x69,
                    0x6e,
                    0,
                    0,
                    0,
                    0,
                ]
                &&& parser::packet_type(kind) == PacketType::FileDescription <==> kind == par
                    + seq![0x46u8, 0x69, 0x6c, 0x65, 0x44, 0x65, 0x73, 0x63]
                &&& parser::packet_type(kind) == PacketType::InputFileSlice <==> kind == par
                    + seq![0x49u8, 0x46, 0x53, 0x43, 0, 0, 0, 0]
                &&& parser::packet_type(kind) == PacketType::RecoverySlice <==> kind == par
                    + seq![0x52u8, 0x65, 0x63, 0x76, 0x53, 0x6c, 0x69, 0x63]
                &&& parser::packet_type(kind) == PacketType::Creator <==> kind == par + seq![
                    0x43u8,
                    0x72,
                    0x65,
                    0x61,
                    0x74,
                    0x6f,
                    0x72,
                    0,
                ]
            },
{
    assert(packets::PAR2_MAGIC@ =~= seq![0x50u8, 0x41, 0x52, 0x32, 0, 0x50, 0x4b, 0x54]);
    let par = seq![0x50u8, 0x41, 0x52, 0x20, 0x32, 0x2e, 0x30, 0];
    let main = par + seq![0x4du8, 0x61, 0x69, 0x6e, 0, 0, 0, 0];
    let desc = par + seq![0x46u8, 0x69, 0x6c, 0x65, 0x44, 0x65, 0x73, 0x63];
    let ifsc = par + seq![0x49u8, 0x46, 0x53, 0x43, 0, 0, 0, 0];
    let recv = par + seq![0x52u8, 0x65, 0x63, 0x76, 0x53, 0x6c, 0x69, 0x63];
    let creator = par + seq![0x43u8, 0x72, 0x65, 0x61, 0x74, 0x6f, 0x72, 0];
    assert(packets::MAIN@ =~= main);
    assert(packets::FILE_DESC@ =~= desc);
    assert(packets::IFSC@ =~= ifsc);
    assert(packets::RECV_SLICE@ =~= recv);
    assert(packets::CREATOR@ =~= creator);
    assert(main[8] == 0x4d && desc[8] == 0x46 && ifsc[8] == 0x49 && recv[8] == 0x52 && creator[8]
        == 0x43);
}

/// A packet: the magic, its length, the digest of all that follows the digest, the ID of the set, the
/// type, and the body with at most three zeros behind it. Its length is a multiple of 4.
pub proof fn law_packet_layout(kind: Seq<u8>, set_id: Seq<u8>, body: Seq<u8>)
    requires
        kind.len() == 16,
        set_id.len() == 16,
        64 + body.len() + 3 <= u64::MAX,
    ensures
        ({
            let p = packets::packet(kind, set_id, body);
            let n = p.len() as int;
            &&& p.subrange(0, 8) == seq![0x50u8, 0x41, 0x52, 0x32, 0, 0x50, 0x4b, 0x54]
            &&& n == four(p[8], p[9], p[10], p[11]) + 0x1_0000_0000 * four(
                p[12],
                p[13],
                p[14],
                p[15],
            )
            &&& p.subrange(16, 32) == hash::md5(p.subrange(32, n))
            &&& p.subrange(32, 48) == set_id
            &&& p.subrange(48, 64) == kind
            &&& p.subrange(64, 64int + body.len()) == body
            &&& n % 4 == 0
            &&& 64 + body.len() <= n < 64 + body.len() + 4
            &&& forall|i: int| 64 + body.len() <= i < n ==> p[i] == 0
        }),
{
    let p = packets::packet(kind, set_id, body);
    let n = p.len() as int;
    let none = Seq::<u8>::empty();
    assert(packets::padded(body).len() == packets::aligned(body.len() as int));
    packets::law_packet_reads_back(none, kind, set_id, body, none);
    assert(none + p + none =~= p);
    law_packets_are_told_apart();
    assert(p.subrange(0, 8) =~= packets::PAR2_MAGIC@);
    law_numbers_are_read_with_the_lowest_byte_first(p, 8);
    assert(p.subrange(32, n) =~= set_id + kind + packets::padded(body));
    assert(p.subrange(64, n) =~= packets::padded(body));
    assert(p.subrange(64, 64int + body.len()) =~= body);
    assert forall|i: int| 64 + body.len() <= i < n implies p[i] == 0 by {
        assert(p[i] == packets::padded(body)[i - 64]);
    }
}

/// A packet in a file starts with the magic, and its length covers the header and does not reach beyond
/// the file. It is intact just if the digest in it is that of all that follows the digest. The next
/// packet starts at the next multiple of 4 from its start.
pub proof fn law_packets_in_files(data: Seq<u8>, p: int)
    requires
        0 <= p,
        p + 64 <= data.len(),
    ensures
        ({
            let length = four(data[p + 8], data[p + 9], data[p + 10], data[p + 11]) + 0x1_0000_0000
                * four(data[p + 12], data[p + 13], data[p + 14], data[p + 15]);
            &&& packets::is_packet(data, p) <==> data.subrange(p, p + 8) == seq![
                0x50u8,
                0x41,
                0x52,
                0x32,
                0,
                0x50,
                0x4b,
                0x54,
            ] && 64 <= length <= data.len() - p
            &&& packets::is_packet(data, p) ==> {
                &&& packets::is_intact(data, p) <==> data.subrange(p + 16, p + 32) == hash::md5(
                    data.subrange(p + 32, p + length),
                )
                &&& packets::packet_set_id(data, p) == data.subrange(p + 32, p + 48)
                &&& packets::packet_kind(data, p) == data.subrange(p + 48, p + 64)
                &&& packets::packet_body(data, p) == data.subrange(p + 64, p + length)
                &&& p + length <= packets::after_packet(data, p) < p + length + 4
                &&& (packets::after_packet(data, p) - p) % 4 == 0
            }
        }),
{
    law_numbers_are_read_with_the_lowest_byte_first(data, p + 8);
    law_packets_are_told_apart();
    let length = packets::packet_length(data, p) as int;
    if packets::is_packet(data, p) {
        assert(data.subrange(p + 32, p + length) =~= packets::packet_set_id(data, p)
            + packets::packet_kind(data, p) + packets::packet_body(data, p));
    }
}

/// The body of a main packet: the block size, the number of IDs, and the IDs.
pub proof fn law_main_body_layout(block_size: u64, ids: Seq<Seq<u8>>, i: int)
    requires
        forall|k: int| 0 <= k < ids.len() ==> (#[trigger] ids[k]).len() == 16,
        0 <= i < ids.len() <= u32::MAX,
    ensures
        ({
            let b = writer::main_body(block_size, ids);
            &&& b.len() == 12 + 16 * ids.len()
            &&& block_size == four(b[0], b[1], b[2], b[3]) + 0x1_0000_0000 * four(
                b[4],
                b[5],
                b[6],
                b[7],
            )
            &&& ids.len() == four(b[8], b[9], b[10], b[11])
            &&& b.subrange(12 + 16 * i, 28 + 16 * i) == ids[i]
        }),
{
    let b = writer::main_body(block_size, ids);
    law_numbers_begin_with_the_lowest_byte(block_size, ids.len() as u32);
    lemma_joined_ids(ids, i);
    let joined = writer::joined_ids(ids);
    assert(b =~= packets::le64(block_size) + packets::le32(ids.len() as u32) + joined);
    assert(b.subrange(12 + 16 * i, 28 + 16 * i) =~= joined.subrange(16 * i, 16 * i + 16));
}

proof fn lemma_joined_ids(ids: Seq<Seq<u8>>, i: int)
    requires
        forall|k: int| 0 <= k < ids.len() ==> (#[trigger] ids[k]).len() == 16,
        0 <= i < ids.len(),
    ensures
        writer::joined_ids(ids).len() == 16 * ids.len(),
        writer::joined_ids(ids).subrange(16 * i, 16 * i + 16) == ids[i],
    decreases ids.len(),
{
    let before = ids.drop_last();
    let all = writer::joined_ids(ids);
    assert forall|k: int| 0 <= k < before.len() implies (#[trigger] before[k]).len() == 16 by {
        assert(before[k] == ids[k]);
    }
    if before.len() == 0 {
        assert(writer::joined_ids(before) =~= seq![]);
    } else {
        lemma_joined_ids(before, if i < before.len() { i } else { 0 });
    }
    if i < before.len() {
        assert(all.subrange(16 * i, 16 * i + 16) =~= writer::joined_ids(before).subrange(
            16 * i,
            16 * i + 16,
        ));
    } else {
        assert(all.subrange(16 * i, 16 * i + 16) =~= ids[i]);
    }
}

/// The body of a file description: the ID, the digest of the file, that of its first 16 KiB, the length,
/// and the name with a zero behind it.
pub proof fn law_file_description_layout(f: FileView)
    requires
        f.file_id.len() == 16,
        f.hash.len() == 16,
        f.hash_16k.len() == 16,
    ensures
        ({
            let b = writer::file_desc_body(f);
            let name = vstd::utf8::encode_utf8(f.name);
            &&& b.len() == 57 + name.len()
            &&& b.subrange(0, 16) == f.file_id
            &&& b.subrange(16, 32) == f.hash
            &&& b.subrange(32, 48) == f.hash_16k
            &&& f.length == four(b[48], b[49], b[50], b[51]) + 0x1_0000_0000 * four(
                b[52],
                b[53],
                b[54],
                b[55],
            )
            &&& b.subrange(56, 56int + name.len()) == name
            &&& b[56int + name.len()] == 0
        }),
{
    let b = writer::file_desc_body(f);
    let name = vstd::utf8::encode_utf8(f.name);
    law_numbers_begin_with_the_lowest_byte(f.length, 0);
    assert(b.subrange(0, 16) =~= f.file_id);
    assert(b.subrange(16, 32) =~= f.hash);
    assert(b.subrange(32, 48) =~= f.hash_16k);
    assert(b.subrange(48, 56) =~= packets::le64(f.length));
    assert(forall|k: int| 0 <= k < 8 ==> #[trigger] b[48 + k] == packets::le64(f.length)[k]);
    assert(b[48] == packets::le64(f.length)[0]);
    assert(b[49] == packets::le64(f.length)[1]);
    assert(b[50] == packets::le64(f.length)[2]);
    assert(b[51] == packets::le64(f.length)[3]);
    assert(b.subrange(56, 56int + name.len()) =~= name);
}

/// The body of an IFSC packet: the ID of the file, and for each block 16 bytes of MD5 and 4 of CRC32.
pub proof fn law_checksums_layout(file_id: Seq<u8>, checksums: Seq<ChecksumView>, i: int)
    requires
        file_id.len() == 16,
        forall|k: int| 0 <= k < checksums.len() ==> (#[trigger] checksums[k]).md5.len() == 16,
        0 <= i < checksums.len(),
    ensures
        ({
            let b = writer::ifsc_body(file_id, checksums);
            let p = 16 + 20 * i;
            &&& b.len() == 16 + 20 * checksums.len()
            &&& b.subrange(0, 16) == file_id
            &&& b.subrange(p, p + 16) == checksums[i].md5
            &&& checksums[i].crc32 == four(b[p + 16], b[p + 17], b[p + 18], b[p + 19])
        }),
{
    let b = writer::ifsc_body(file_id, checksums);
    let joined = writer::joined_checksums(checksums);
    let p = 16 + 20 * i;
    lemma_joined_checksums(checksums, i);
    law_numbers_begin_with_the_lowest_byte(0, checksums[i].crc32);
    let c = packets::le32(checksums[i].crc32);
    let part = joined.subrange(20 * i, 20 * i + 20);
    assert(part =~= checksums[i].md5 + c);
    assert(b.subrange(0, 16) =~= file_id);
    assert(b.subrange(p, p + 20) =~= part);
    assert(b.subrange(p, p + 16) =~= checksums[i].md5) by {
        assert(forall|k: int| 0 <= k < 16 ==> b.subrange(p, p + 16)[k] == part[k]);
    }
    assert(b[p + 16] == part[16] && part[16] == c[0]);
    assert(b[p + 17] == part[17] && part[17] == c[1]);
    assert(b[p + 18] == part[18] && part[18] == c[2]);
    assert(b[p + 19] == part[19] && part[19] == c[3]);
}

proof fn lemma_joined_checksums(checksums: Seq<ChecksumView>, i: int)
    requires
        forall|k: int| 0 <= k < checksums.len() ==> (#[trigger] checksums[k]).md5.len() == 16,
        0 <= i < checksums.len(),
    ensures
        writer::joined_checksums(checksums).len() == 20 * checksums.len(),
        writer::joined_checksums(checksums).subrange(20 * i, 20 * i + 20) == checksums[i].md5
            + packets::le32(checksums[i].crc32),
    decreases checksums.len(),
{
    let before = checksums.drop_last();
    let all = writer::joined_checksums(checksums);
    packets::law_little_endian(0, checksums.last().crc32);
    assert forall|k: int| 0 <= k < before.len() implies (#[trigger] before[k]).md5.len() == 16 by {
        assert(before[k] == checksums[k]);
    }
    if before.len() == 0 {
        assert(writer::joined_checksums(before) =~= seq![]);
    } else {
        lemma_joined_checksums(before, if i < before.len() { i } else { 0 });
    }
    if i < before.len() {
        assert(all.subrange(20 * i, 20 * i + 20) =~= writer::joined_checksums(before).subrange(
            20 * i,
            20 * i + 20,
        ));
    } else {
        assert(all.subrange(20 * i, 20 * i + 20) =~= checksums[i].md5 + packets::le32(
            checksums[i].crc32,
        ));
    }
}

/// The body of a recovery packet: the exponent, and the data.
pub proof fn law_recovery_layout(exponent: u32, data: Seq<u8>)
    ensures
        ({
            let b = writer::recovery_body(exponent, data);
            &&& b.len() == 4 + data.len()
            &&& exponent == four(b[0], b[1], b[2], b[3])
            &&& b.subrange(4, 4int + data.len()) == data
        }),
{
    let b = writer::recovery_body(exponent, data);
    law_numbers_begin_with_the_lowest_byte(0, exponent);
    assert(b.subrange(4, 4int + data.len()) =~= data);
}

/// How a main packet is read: as many IDs as it says, as far as they are there.
pub proof fn law_main_body_is_read(body: Seq<u8>)
    requires
        body.len() >= 12,
    ensures
        ({
            let n = four(body[8], body[9], body[10], body[11]);
            let ids = parser::main_ids(body);
            &&& packets::u64_at(body, 0) == four(body[0], body[1], body[2], body[3])
                + 0x1_0000_0000 * four(body[4], body[5], body[6], body[7])
            &&& ids.len() <= n
            &&& 12 + 16 * ids.len() <= body.len()
            &&& ids.len() == n || 12 + 16 * (ids.len() + 1) > body.len()
            &&& forall|i: int|
                0 <= i < ids.len() ==> #[trigger] ids[i] == body.subrange(12 + 16 * i, 28 + 16 * i)
        }),
{
    law_numbers_are_read_with_the_lowest_byte_first(body, 0);
    let t = body.subrange(8, 12);
    numbers::lemma_number_of_16(t);
    lemma_number_of_four(t);
}

/// How a file description is read: its name reaches up to the first zero, or to the end.
pub proof fn law_file_description_is_read(body: Seq<u8>, end: int)
    requires
        body.len() >= 56,
        56 <= end <= body.len(),
        forall|i: int| 56 <= i < end ==> body[i] != 0,
        end == body.len() || body[end] == 0,
    ensures
        parser::file_description(body) is Some,
        ({
            let f = parser::file_description(body)->Some_0;
            let name = body.subrange(56, end);
            &&& f.file_id == body.subrange(0, 16)
            &&& f.hash == body.subrange(16, 32)
            &&& f.hash_16k == body.subrange(32, 48)
            &&& f.length == four(body[48], body[49], body[50], body[51]) + 0x1_0000_0000 * four(
                body[52],
                body[53],
                body[54],
                body[55],
            )
            &&& vstd::utf8::valid_utf8(name) ==> f.name == vstd::utf8::decode_utf8(name)
            &&& !vstd::utf8::valid_utf8(name) ==> f.name == parser::lossy_decoded(name)
        }),
{
    law_numbers_are_read_with_the_lowest_byte_first(body, 48);
    lemma_name_end(body, 56, end);
}

proof fn lemma_name_end(body: Seq<u8>, from: int, end: int)
    requires
        0 <= from <= end <= body.len(),
        forall|i: int| from <= i < end ==> body[i] != 0,
        end == body.len() || body[end] == 0,
    ensures
        parser::name_end(body, from) == end,
    decreases end - from,
{
    if from < end {
        lemma_name_end(body, from + 1, end);
    }
}

/// How an IFSC packet is read: 20 bytes for each block, behind the ID of the file.
pub proof fn law_checksums_are_read(body: Seq<u8>)
    requires
        body.len() >= 16,
    ensures
        ({
            let list = parser::ifsc_checksums(body);
            &&& 16 + 20 * list.len() <= body.len() < 16 + 20 * (list.len() + 1)
            &&& forall|i: int|
                #![trigger list[i]]
                0 <= i < list.len() ==> {
                    let p = 16 + 20 * i;
                    &&& list[i].md5 == body.subrange(p, p + 16)
                    &&& list[i].crc32 == four(
                        body[p + 16],
                        body[p + 17],
                        body[p + 18],
                        body[p + 19],
                    )
                }
        }),
{
    let list = parser::ifsc_checksums(body);
    assert forall|i: int| #![trigger list[i]] 0 <= i < list.len() implies {
        let p = 16 + 20 * i;
        &&& list[i].md5 == body.subrange(p, p + 16)
        &&& list[i].crc32 == four(body[p + 16], body[p + 17], body[p + 18], body[p + 19])
    } by {
        let p = 16 + 20 * i;
        let t = body.subrange(p + 16, p + 20);
        numbers::lemma_number_of_16(t);
        lemma_number_of_four(t);
    }
}

/// How a recovery packet is read: the exponent stands behind the header, and the data of one block
/// behind it.
pub proof fn law_recovery_packet_is_read(data: Seq<u8>, p: int, block_size: u64, path: Seq<char>)
    requires
        0 <= p,
        p + 72 <= data.len(),
        data.len() <= u64::MAX,
    ensures
        ({
            let block = parser::recovery_at(data, p, block_size, path);
            &&& block.exponent == four(data[p + 64], data[p + 65], data[p + 66], data[p + 67])
            &&& block.data is None
            &&& block.file_path == path
            &&& block.data_offset == p + 68
            &&& block.data_length == block_size
        }),
{
    law_numbers_are_read_with_the_lowest_byte_first(data, p + 64);
}

/// The description of a file: the digest of all its bytes, that of its first 16384 bytes, its length,
/// and an ID that is the digest of the latter two and the name.
pub proof fn law_files_are_described(name: Seq<char>, data: Seq<u8>, head: Seq<u8>, length: Seq<u8>)
    requires
        data.len() <= u64::MAX,
        head == (if data.len() <= 16384 {
            data
        } else {
            data.subrange(0, 16384)
        }),
        length.len() == 8,
        data.len() == four(length[0], length[1], length[2], length[3]) + 0x1_0000_0000 * four(
            length[4],
            length[5],
            length[6],
            length[7],
        ),
    ensures
        ({
            let f = creator::described(name, data);
            &&& f.name == name
            &&& f.length == data.len()
            &&& f.hash == hash::md5(data)
            &&& f.hash_16k == hash::md5(head)
            &&& f.file_id == hash::md5(hash::md5(head) + length + vstd::utf8::encode_utf8(name))
        }),
{
    assert(parser::piece(data, 0, 16384) =~= head);
    lemma_number_of_eight(length);
    let le = packets::le64(data.len() as u64);
    packets::law_little_endian(data.len() as u64, 0);
    numbers::lemma_number_injective(le, length);
}

/// The checksums of the blocks of a file: one pair for each block, of the bytes of the block, with zeros
/// where the file has ended.
pub proof fn law_blocks_have_checksums(data: Seq<u8>, block_size: nat, i: int, block: Seq<u8>)
    requires
        block_size > 0,
        0 <= i,
        block.len() == block_size,
        forall|k: int|
            0 <= k < block_size ==> #[trigger] block[k] == (if i * block_size + k < data.len() {
                data[i * block_size + k]
            } else {
                0
            }),
    ensures
        ({
            let list = creator::file_checksums(data, block_size);
            &&& i < list.len() <==> i * block_size < data.len()
            &&& i < list.len() ==> list[i].md5 == hash::md5(block) && list[i].crc32
                == hash::crc32_checksum(block)
        }),
{
    blocks::law_block_count(data.len() as int, block_size as int, i);
    assert(blocks::block_at(data, block_size, i) =~= block);
}

/// The ID of a set is the digest of the body of its main packet, which lists the IDs of its files.
pub proof fn law_set_id_is_a_digest(set: SetView)
    ensures
        set.set_id() == hash::md5(writer::main_body(set.block_size, writer::sorted_ids(set.ids()))),
        set.main_packet() == writer::main_body(set.block_size, writer::sorted_ids(set.ids())),
        set.ids() == Seq::new(set.files.len(), |i: int| set.files[i].file_id),
{
}

/// One ID stands before another in lexicographic order, or is the same.
pub open spec fn is_lexicographic(a: Seq<u8>, b: Seq<u8>) -> bool {
    a == b || exists|k: int|
        0 <= k < a.len() && k < b.len() && #[trigger] a[k] < b[k] && a.take(k) == b.take(k)
}

/// The value of bytes, the first one the highest.
spec fn high_first(s: Seq<u8>) -> int
    decreases s.len(),
{
    if s.len() == 0 {
        0
    } else {
        256 * high_first(s.drop_last()) + s.last()
    }
}

proof fn lemma_high_first(s: Seq<u8>)
    ensures
        numbers::number(s.reverse()) == high_first(s),
    decreases s.len(),
{
    if s.len() > 0 {
        lemma_high_first(s.drop_last());
        assert(s.reverse().skip(1) =~= s.drop_last().reverse());
    }
}

proof fn lemma_smaller_is_lexicographic(a: Seq<u8>, b: Seq<u8>)
    requires
        a.len() == b.len(),
        high_first(a) < high_first(b),
    ensures
        exists|k: int| 0 <= k < a.len() && #[trigger] a[k] < b[k] && a.take(k) == b.take(k),
    decreases a.len(),
{
    let x = a.drop_last();
    let y = b.drop_last();
    let n = a.len() - 1;
    if high_first(x) < high_first(y) {
        lemma_smaller_is_lexicographic(x, y);
        let k = choose|k: int| 0 <= k < x.len() && #[trigger] x[k] < y[k] && x.take(k) == y.take(k);
        assert(a.take(k) =~= x.take(k));
        assert(b.take(k) =~= y.take(k));
        assert(a[k] < b[k]);
    } else {
        if high_first(y) < high_first(x) {
            assert(256 * high_first(y) + 255 < 256 * high_first(x) + 1);
        }
        assert(high_first(x) == high_first(y));
        lemma_high_first(x);
        lemma_high_first(y);
        numbers::lemma_number_injective(x.reverse(), y.reverse());
        assert(x =~= x.reverse().reverse());
        assert(y =~= y.reverse().reverse());
        assert(a.take(n) =~= x);
        assert(b.take(n) =~= y);
        assert(a[n] < b[n]);
    }
}

/// The main packet lists the IDs of the files in lexicographic order, each as often as there are files
/// with it.
pub proof fn law_ids_are_sorted(ids: Seq<Seq<u8>>)
    requires
        forall|k: int| 0 <= k < ids.len() ==> (#[trigger] ids[k]).len() == 16,
    ensures
        writer::sorted_ids(ids).len() == ids.len(),
        forall|i: int, j: int|
            0 <= i < j < ids.len() ==> is_lexicographic(
                #[trigger] writer::sorted_ids(ids)[i],
                #[trigger] writer::sorted_ids(ids)[j],
            ),
        forall|i: int| 0 <= i < ids.len() ==> #[trigger] writer::sorted_ids(ids).contains(ids[i]),
        forall|i: int| 0 <= i < ids.len() ==> ids.contains(#[trigger] writer::sorted_ids(ids)[i]),
        forall|i: int, j: int|
            0 <= i < j < ids.len() ==> #[trigger] writer::id_order(ids)[i]
                != #[trigger] writer::id_order(ids)[j],
        forall|i: int|
            0 <= i < ids.len() ==> 0 <= #[trigger] writer::id_order(ids)[i] < ids.len()
                && writer::sorted_ids(ids)[i] == ids[writer::id_order(ids)[i]],
{
    let keys = writer::id_keys(ids);
    let order = writer::id_order(ids);
    let sorted = writer::sorted_ids(ids);
    ordering::law_stable_order_exists(keys);
    assert(ordering::is_stable_order(keys, order));
    assert forall|i: int, j: int| 0 <= i < j < ids.len() implies is_lexicographic(
        #[trigger] sorted[i],
        #[trigger] sorted[j],
    ) by {
        assert(ordering::goes_before(keys, order[i], order[j]));
        let a = ids[order[i]];
        let b = ids[order[j]];
        assert(a.len() == 16 && b.len() == 16);
        lemma_high_first(a);
        lemma_high_first(b);
        numbers::lemma_number_of_16(a.reverse());
        numbers::lemma_number_of_16(b.reverse());
        if high_first(a) < high_first(b) {
            lemma_smaller_is_lexicographic(a, b);
        } else {
            ordering::law_ids_have_different_numbers(a, b);
        }
    }
    assert forall|i: int| 0 <= i < ids.len() implies #[trigger] sorted.contains(ids[i]) by {
        sums::lemma_permutation_onto(order, ids.len(), i);
        let k = choose|k: int| 0 <= k < ids.len() && #[trigger] order[k] == i;
        assert(sorted[k] == ids[i]);
    }
    assert forall|i: int| 0 <= i < ids.len() implies ids.contains(#[trigger] sorted[i]) by {
        assert(ids[order[i]] == sorted[i]);
    }
}

/// As numbers with the lowest byte first, IDs are compared from their last bytes on.
pub proof fn law_last_bytes_decide(a: Seq<u8>, b: Seq<u8>)
    requires
        a.len() == 16,
        b.len() == 16,
    ensures
        ordering::little_endian(a) < ordering::little_endian(b) <==> exists|k: int|
            0 <= k < 16 && #[trigger] a[k] < b[k] && a.skip(k + 1) == b.skip(k + 1),
        ordering::little_endian(a) == ordering::little_endian(b) <==> a == b,
{
    let x = a.reverse();
    let y = b.reverse();
    assert(x.reverse() =~= a);
    assert(y.reverse() =~= b);
    lemma_high_first(x);
    lemma_high_first(y);
    numbers::lemma_number_of_16(a);
    numbers::lemma_number_of_16(b);
    ordering::law_ids_have_different_numbers(a, b);
    if high_first(x) < high_first(y) {
        lemma_smaller_is_lexicographic(x, y);
        let k = choose|k: int| 0 <= k < x.len() && #[trigger] x[k] < y[k] && x.take(k) == y.take(k);
        lemma_reversed_tail(a, b, k);
        assert(a[15 - k] < b[15 - k]);
    } else if high_first(y) < high_first(x) {
        lemma_smaller_is_lexicographic(y, x);
        let k = choose|k: int| 0 <= k < x.len() && #[trigger] y[k] < x[k] && y.take(k) == x.take(k);
        lemma_reversed_tail(b, a, k);
        assert forall|m: int|
            0 <= m < 16 && #[trigger] a[m] < b[m] implies a.skip(m + 1) != b.skip(m + 1) by {
            let t = 15 - k;
            assert(b[t] < a[t]);
            assert(b.skip(t + 1) == a.skip(t + 1));
            if m > t {
                assert(a.skip(t + 1)[m - t - 1] == a[m]);
                assert(b.skip(t + 1)[m - t - 1] == b[m]);
            } else {
                assert(a.skip(m + 1)[t - m - 1] == a[t]);
                assert(b.skip(m + 1)[t - m - 1] == b[t]);
            }
        }
    }
}

proof fn lemma_reversed_tail(a: Seq<u8>, b: Seq<u8>, k: int)
    requires
        a.len() == 16,
        b.len() == 16,
        0 <= k < 16,
        a.reverse().take(k) == b.reverse().take(k),
    ensures
        a.skip(15 - k + 1) == b.skip(15 - k + 1),
        a.reverse()[k] == a[15 - k],
        b.reverse()[k] == b[15 - k],
{
    assert forall|i: int| 0 <= i < k implies #[trigger] a.skip(16 - k)[i] == b.skip(16 - k)[i] by {
        let m = k - 1 - i;
        assert(a.reverse().take(k)[m] == a[16 - k + i]);
        assert(b.reverse().take(k)[m] == b[16 - k + i]);
    }
    assert(a.skip(15 - k + 1) =~= b.skip(15 - k + 1));
}

} // verus!
