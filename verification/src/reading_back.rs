//! What is written can be read: the bodies of packets, and whole volumes.

use vstd::prelude::*;

use crate::creator;
use crate::creator::SetView;
use crate::galois::sums;
use crate::hash;
use crate::loader;
use crate::loader::Scan;
use crate::ordering;
use crate::packets;
use crate::parser;
use crate::parser::{ChecksumView, FileView, PacketType};
use crate::writer;

verus! {

/// All IDs have 16 bytes.
pub open spec fn are_ids(ids: Seq<Seq<u8>>) -> bool {
    forall|i: int| 0 <= i < ids.len() ==> (#[trigger] ids[i]).len() == 16
}

proof fn lemma_joined_ids(ids: Seq<Seq<u8>>, i: int)
    requires
        are_ids(ids),
    ensures
        writer::joined_ids(ids).len() == 16 * ids.len(),
        0 <= i < ids.len() ==> writer::joined_ids(ids).subrange(16 * i, 16 * i + 16) == ids[i],
    decreases ids.len(),
{
    if ids.len() > 0 {
        let before = ids.drop_last();
        lemma_joined_ids(before, i);
        let all = writer::joined_ids(ids);
        if 0 <= i < before.len() {
            assert(all.subrange(16 * i, 16 * i + 16) =~= writer::joined_ids(before).subrange(
                16 * i,
                16 * i + 16,
            ));
        } else if i == before.len() {
            assert(all.subrange(16 * i, 16 * i + 16) =~= ids[i]);
        }
    }
}

/// A main packet reads back: its block size, and the IDs in the order in which they were written.
pub proof fn law_main_packet_reads_back(block_size: u64, ids: Seq<Seq<u8>>)
    requires
        are_ids(ids),
        ids.len() <= u32::MAX,
    ensures
        packets::padded(writer::main_body(block_size, ids)).len() >= 12,
        packets::u64_at(packets::padded(writer::main_body(block_size, ids)), 0) == block_size,
        parser::main_ids(packets::padded(writer::main_body(block_size, ids))) == ids,
{
    let count = ids.len() as u32;
    let body = writer::main_body(block_size, ids);
    let all = packets::padded(body);
    packets::law_little_endian(block_size, count);
    lemma_joined_ids(ids, 0);
    assert(body.len() == 12 + 16 * ids.len());
    assert(all =~= body);
    assert(all.subrange(0, 8) =~= packets::le64(block_size));
    assert(all.subrange(8, 12) =~= packets::le32(count));
    assert(parser::main_id_count(all) == ids.len());
    assert forall|i: int| 0 <= i < ids.len() implies #[trigger] parser::main_ids(all)[i]
        == ids[i] by {
        lemma_joined_ids(ids, i);
        assert(packets::id_at(all, 12 + 16 * i) =~= writer::joined_ids(ids).subrange(
            16 * i,
            16 * i + 16,
        ));
    }
    assert(parser::main_ids(all) =~= ids);
}

/// The text holds no zero character.
pub open spec fn no_zero(text: Seq<char>) -> bool {
    forall|i: int| 0 <= i < text.len() ==> #[trigger] text[i] != '\0'
}

proof fn lemma_scalar_bytes(v: u32)
    by (bit_vector)
    ensures
        0 < v <= 0x7f ==> vstd::utf8::leading_byte_width_1(v) != 0,
        vstd::utf8::leading_byte_width_2(v) != 0,
        vstd::utf8::leading_byte_width_3(v) != 0,
        vstd::utf8::leading_byte_width_4(v) != 0,
        vstd::utf8::last_continuation_byte(v) != 0,
        vstd::utf8::second_last_continuation_byte(v) != 0,
        vstd::utf8::third_last_continuation_byte(v) != 0,
{
}

proof fn lemma_no_zero_byte(text: Seq<char>, i: int)
    requires
        no_zero(text),
        0 <= i < writer::utf8(text).len(),
    ensures
        writer::utf8(text)[i] != 0,
    decreases text.len(),
{
    let v = text[0] as u32;
    let head = vstd::utf8::encode_scalar(v);
    let rest = text.drop_first();
    lemma_scalar_bytes(v);
    assert(v != 0) by {
        assert(text[0] != '\0');
        vstd::utf8::char_u32_cast(text[0], v);
        vstd::utf8::char_u32_cast('\0', 0);
    }
    if i >= head.len() {
        lemma_no_zero_byte(rest, i - head.len());
    }
}

proof fn lemma_name_end(body: Seq<u8>, from: int, end: int)
    requires
        0 <= from <= end < body.len(),
        body[end] == 0,
        forall|i: int| from <= i < end ==> body[i] != 0,
    ensures
        parser::name_end(body, from) == end,
    decreases end - from,
{
    if from < end {
        lemma_name_end(body, from + 1, end);
    }
}

/// The digests in the description have 16 bytes.
pub open spec fn has_digests(f: FileView) -> bool {
    f.file_id.len() == 16 && f.hash.len() == 16 && f.hash_16k.len() == 16
}

/// A file description reads back, if the name of the file holds no zero character.
pub proof fn law_file_description_reads_back(f: FileView)
    requires
        has_digests(f),
        no_zero(f.name),
    ensures
        parser::file_description(packets::padded(writer::file_desc_body(f))) == Some(f),
{
    let body = writer::file_desc_body(f);
    let all = packets::padded(body);
    let name = writer::utf8(f.name);
    let end = (56 + name.len()) as int;
    packets::law_little_endian(f.length, 0);
    assert(packets::id_at(all, 0) =~= f.file_id);
    assert(packets::id_at(all, 16) =~= f.hash);
    assert(packets::id_at(all, 32) =~= f.hash_16k);
    assert(all.subrange(48, 56) =~= packets::le64(f.length));
    assert(all.subrange(56, end) =~= name);
    assert(all[end] == 0);
    assert forall|i: int| 56 <= i < end implies all[i] != 0 by {
        assert(all[i] == name[i - 56]);
        lemma_no_zero_byte(f.name, i - 56);
    }
    lemma_name_end(all, 56, end);
    vstd::utf8::encode_utf8_valid_utf8(f.name);
    vstd::utf8::encode_utf8_decode_utf8(f.name);
    assert(parser::file_description(all)->Some_0 =~= f);
}

/// All digests have 16 bytes.
pub open spec fn are_checksums(checksums: Seq<ChecksumView>) -> bool {
    forall|i: int| 0 <= i < checksums.len() ==> (#[trigger] checksums[i]).md5.len() == 16
}

proof fn lemma_joined_checksums(checksums: Seq<ChecksumView>, i: int)
    requires
        are_checksums(checksums),
    ensures
        writer::joined_checksums(checksums).len() == 20 * checksums.len(),
        0 <= i < checksums.len() ==> {
            let all = writer::joined_checksums(checksums);
            &&& all.subrange(20 * i, 20 * i + 16) == checksums[i].md5
            &&& all.subrange(20 * i + 16, 20 * i + 20) == packets::le32(checksums[i].crc32)
        },
    decreases checksums.len(),
{
    if checksums.len() > 0 {
        let before = checksums.drop_last();
        lemma_joined_checksums(before, i);
        packets::law_little_endian(0, checksums.last().crc32);
        let all = writer::joined_checksums(checksums);
        let part = writer::joined_checksums(before);
        if 0 <= i < before.len() {
            assert(all.subrange(20 * i, 20 * i + 16) =~= part.subrange(20 * i, 20 * i + 16));
            assert(all.subrange(20 * i + 16, 20 * i + 20) =~= part.subrange(
                20 * i + 16,
                20 * i + 20,
            ));
        } else if i == before.len() {
            assert(all.subrange(20 * i, 20 * i + 16) =~= checksums[i].md5);
            assert(all.subrange(20 * i + 16, 20 * i + 20) =~= packets::le32(checksums[i].crc32));
        }
    }
}

/// The checksums of the blocks of a file read back.
pub proof fn law_checksums_read_back(file_id: Seq<u8>, checksums: Seq<ChecksumView>)
    requires
        file_id.len() == 16,
        are_checksums(checksums),
    ensures
        packets::padded(writer::ifsc_body(file_id, checksums)).len() >= 16,
        packets::id_at(packets::padded(writer::ifsc_body(file_id, checksums)), 0) == file_id,
        parser::ifsc_checksums(packets::padded(writer::ifsc_body(file_id, checksums))) == checksums,
{
    let body = writer::ifsc_body(file_id, checksums);
    let all = packets::padded(body);
    lemma_joined_checksums(checksums, 0);
    assert(body.len() == 16 + 20 * checksums.len());
    assert(all =~= body);
    assert(packets::id_at(all, 0) =~= file_id);
    assert forall|i: int| 0 <= i < checksums.len() implies #[trigger] parser::ifsc_checksums(all)[i]
        == checksums[i] by {
        lemma_joined_checksums(checksums, i);
        packets::law_little_endian(0, checksums[i].crc32);
        let joined = writer::joined_checksums(checksums);
        assert(packets::id_at(all, 16 + 20 * i) =~= joined.subrange(20 * i, 20 * i + 16));
        assert(all.subrange(32 + 20 * i, 36 + 20 * i) =~= joined.subrange(
            20 * i + 16,
            20 * i + 20,
        ));
        assert(parser::ifsc_checksums(all)[i] =~= checksums[i]);
    }
    assert(parser::ifsc_checksums(all) =~= checksums);
}

/// The order that sorts IDs is a permutation, and their order.
pub proof fn lemma_sorted_ids(ids: Seq<Seq<u8>>)
    ensures
        ordering::is_stable_order(writer::id_keys(ids), writer::id_order(ids)),
        are_ids(ids) ==> are_ids(writer::sorted_ids(ids)),
{
    ordering::law_stable_order_exists(writer::id_keys(ids));
    let order = writer::id_order(ids);
    assert(sums::is_permutation(order, ids.len()));
    if are_ids(ids) {
        assert forall|i: int| 0 <= i < ids.len() implies (
        #[trigger] writer::sorted_ids(ids)[i]).len() == 16 by {
            assert(0 <= order[i] < ids.len());
        }
    }
}

/// What a scan finds from `p` on.
#[verifier::opaque]
spec fn scanned(data: Seq<u8>, p: int, path: Seq<char>, st: Scan) -> Scan {
    loader::scan(data, p, path, st)
}

/// What a scan that reaches a packet finds there and goes on with.
proof fn lemma_scan_packet(
    before: Seq<u8>,
    kind: Seq<u8>,
    set_id: Seq<u8>,
    body: Seq<u8>,
    after: Seq<u8>,
    path: Seq<char>,
    st: Scan,
)
    requires
        kind.len() == 16,
        set_id.len() == 16,
        64 + packets::padded(body).len() <= u64::MAX,
        st.set_id == set_id || st.set_id == loader::zero_id(),
    ensures
        ({
            let data = before + packets::packet(kind, set_id, body) + after;
            let p = before.len() as int;
            let st1 = Scan { set_id, ..st };
            let next = p + packets::packet(kind, set_id, body).len();
            &&& packets::packet_body(data, p) == packets::padded(body)
            &&& packets::packet_kind(data, p) == kind
            &&& kind != packets::RECV_SLICE@ ==> scanned(data, p, path, st) == scanned(
                data,
                next,
                path,
                loader::absorbed(st1, data, p),
            )
            &&& kind == packets::RECV_SLICE@ && st.block_size != 0 && packets::padded(body).len()
                >= 4 ==> scanned(data, p, path, st) == scanned(
                data,
                next,
                path,
                Scan {
                    recovery: st.recovery.push(
                        parser::recovery_at(data, p, st.block_size, path),
                    ),
                    ..st1
                },
            )
        }),
{
    reveal(scanned);
    packets::law_packet_reads_back(before, kind, set_id, body, after);
    lemma_kinds_differ();
    let data = before + packets::packet(kind, set_id, body) + after;
    let p = before.len() as int;
    let st1 = Scan { set_id, ..st };
    assert(loader::with_set_id(st, data, p) == st1);
}

/// The types of packets are told apart.
pub proof fn lemma_kinds_differ()
    ensures
        parser::packet_type(packets::MAIN@) == PacketType::Main,
        parser::packet_type(packets::FILE_DESC@) == PacketType::FileDescription,
        parser::packet_type(packets::IFSC@) == PacketType::InputFileSlice,
        parser::packet_type(packets::RECV_SLICE@) == PacketType::RecoverySlice,
        parser::packet_type(packets::CREATOR@) == PacketType::Creator,
        forall|kind: Seq<u8>|
            kind != packets::RECV_SLICE@ ==> #[trigger] parser::packet_type(kind)
                != PacketType::RecoverySlice,
{
    assert(packets::MAIN@[8] == 77);
    assert(packets::FILE_DESC@[8] == 70);
    assert(packets::IFSC@[8] == 73);
    assert(packets::RECV_SLICE@[8] == 82);
    assert(packets::CREATOR@[8] == 67);
}

/// A table of files with more files put in.
pub open spec fn with_files(table: Map<Seq<u8>, FileView>, files: Seq<FileView>) -> Map<
    Seq<u8>,
    FileView,
>
    decreases files.len(),
{
    if files.len() == 0 {
        table
    } else {
        with_files(table, files.drop_last()).insert(files.last().file_id, files.last())
    }
}

/// The descriptions can be written and read.
pub open spec fn are_readable(files: Seq<FileView>) -> bool {
    forall|i: int|
        0 <= i < files.len() ==> has_digests(#[trigger] files[i]) && no_zero(files[i].name)
}

pub proof fn lemma_packet_len(kind: Seq<u8>, set_id: Seq<u8>, body: Seq<u8>)
    requires
        kind.len() == 16,
        set_id.len() == 16,
    ensures
        packets::packet(kind, set_id, body).len() == 64 + packets::padded(body).len(),
{
    packets::law_little_endian((64 + packets::padded(body).len()) as u64, 0);
}

/// Four pieces put together in different ways.
pub proof fn lemma_regroup(a: Seq<u8>, b: Seq<u8>, c: Seq<u8>, d: Seq<u8>)
    ensures
        a + b + (c + d) == a + (b + c) + d,
        (a + b) + c + d == a + (b + c) + d,
        (a + b).len() == a.len() + b.len(),
        (b + c).len() == b.len() + c.len(),
{
    assert(a + b + (c + d) =~= a + (b + c) + d);
    assert((a + b) + c + d =~= a + (b + c) + d);
}

proof fn lemma_scan_description(
    before: Seq<u8>,
    set_id: Seq<u8>,
    f: FileView,
    after: Seq<u8>,
    path: Seq<char>,
    st: Scan,
)
    requires
        set_id.len() == 16,
        has_digests(f),
        no_zero(f.name),
        st.set_id == set_id,
        64 + packets::padded(writer::file_desc_body(f)).len() <= u64::MAX,
    ensures
        ({
            let packet = packets::packet(packets::FILE_DESC@, set_id, writer::file_desc_body(f));
            let data = before + packet + after;
            scanned(data, before.len() as int, path, st) == scanned(
                data,
                (before.len() + packet.len()) as int,
                path,
                Scan { files: st.files.insert(f.file_id, f), found: st.found.push(f), ..st },
            )
        }),
{
    let body = writer::file_desc_body(f);
    lemma_scan_packet(before, packets::FILE_DESC@, set_id, body, after, path, st);
    law_file_description_reads_back(f);
    lemma_kinds_differ();
    assert(packets::FILE_DESC@ != packets::RECV_SLICE@) by {
        assert(packets::FILE_DESC@[8] == 70);
        assert(packets::RECV_SLICE@[8] == 82);
    }
}

proof fn lemma_scan_descriptions(
    before: Seq<u8>,
    set_id: Seq<u8>,
    files: Seq<FileView>,
    after: Seq<u8>,
    path: Seq<char>,
    st: Scan,
)
    requires
        set_id.len() == 16,
        are_readable(files),
        st.set_id == set_id,
        creator::description_packets(set_id, files).len() <= u64::MAX,
    ensures
        ({
            let all = creator::description_packets(set_id, files);
            let data = before + all + after;
            scanned(data, before.len() as int, path, st) == scanned(
                data,
                (before.len() + all.len()) as int,
                path,
                Scan { files: with_files(st.files, files), found: st.found + files, ..st },
            )
        }),
    decreases files.len(),
{
    let all = creator::description_packets(set_id, files);
    let data = before + all + after;
    if files.len() == 0 {
        assert(st.found + files =~= st.found);
    } else {
        let rest = files.drop_last();
        let f = files.last();
        let body = writer::file_desc_body(f);
        let packet = packets::packet(packets::FILE_DESC@, set_id, body);
        let part = creator::description_packets(set_id, rest);
        lemma_packet_len(packets::FILE_DESC@, set_id, body);
        lemma_regroup(before, part, packet, after);
        lemma_scan_descriptions(before, set_id, rest, packet + after, path, st);
        let st1 = Scan { files: with_files(st.files, rest), found: st.found + rest, ..st };
        lemma_scan_description(before + part, set_id, f, after, path, st1);
        assert((st.found + rest).push(f) =~= st.found + files);
    }
}

/// A table of checksums with those of files put in.
spec fn with_checksums(
    to: Map<Seq<u8>, Seq<ChecksumView>>,
    files: Seq<FileView>,
    table: Map<Seq<u8>, Seq<ChecksumView>>,
) -> Map<Seq<u8>, Seq<ChecksumView>>
    decreases files.len(),
{
    if files.len() == 0 {
        to
    } else {
        with_checksums(to, files.drop_last(), table).insert(
            files.last().file_id,
            table[files.last().file_id],
        )
    }
}

proof fn lemma_scan_checksum(
    before: Seq<u8>,
    set_id: Seq<u8>,
    file_id: Seq<u8>,
    checksums: Seq<ChecksumView>,
    after: Seq<u8>,
    path: Seq<char>,
    st: Scan,
)
    requires
        set_id.len() == 16,
        file_id.len() == 16,
        are_checksums(checksums),
        st.set_id == set_id,
        64 + packets::padded(writer::ifsc_body(file_id, checksums)).len() <= u64::MAX,
    ensures
        ({
            let packet = packets::packet(
                packets::IFSC@,
                set_id,
                writer::ifsc_body(file_id, checksums),
            );
            let data = before + packet + after;
            scanned(data, before.len() as int, path, st) == scanned(
                data,
                (before.len() + packet.len()) as int,
                path,
                Scan { checksums: st.checksums.insert(file_id, checksums), ..st },
            )
        }),
{
    let body = writer::ifsc_body(file_id, checksums);
    lemma_scan_packet(before, packets::IFSC@, set_id, body, after, path, st);
    law_checksums_read_back(file_id, checksums);
    lemma_kinds_differ();
    assert(packets::IFSC@ != packets::RECV_SLICE@) by {
        assert(packets::IFSC@[8] == 73);
        assert(packets::RECV_SLICE@[8] == 82);
    }
}

proof fn lemma_scan_checksums(
    before: Seq<u8>,
    set_id: Seq<u8>,
    files: Seq<FileView>,
    table: Map<Seq<u8>, Seq<ChecksumView>>,
    after: Seq<u8>,
    path: Seq<char>,
    st: Scan,
)
    requires
        set_id.len() == 16,
        are_readable(files),
        forall|i: int|
            0 <= i < files.len() ==> are_checksums(table[(#[trigger] files[i]).file_id]),
        st.set_id == set_id,
        creator::checksum_packets(set_id, files, table).len() <= u64::MAX,
    ensures
        ({
            let all = creator::checksum_packets(set_id, files, table);
            let data = before + all + after;
            scanned(data, before.len() as int, path, st) == scanned(
                data,
                (before.len() + all.len()) as int,
                path,
                Scan { checksums: with_checksums(st.checksums, files, table), ..st },
            )
        }),
    decreases files.len(),
{
    let all = creator::checksum_packets(set_id, files, table);
    let data = before + all + after;
    if files.len() > 0 {
        let rest = files.drop_last();
        let f = files.last();
        assert(are_checksums(table[files[files.len() - 1].file_id]));
        assert(has_digests(files[files.len() - 1]));
        let body = writer::ifsc_body(f.file_id, table[f.file_id]);
        let packet = packets::packet(packets::IFSC@, set_id, body);
        let part = creator::checksum_packets(set_id, rest, table);
        lemma_packet_len(packets::IFSC@, set_id, body);
        lemma_regroup(before, part, packet, after);
        lemma_scan_checksums(before, set_id, rest, table, packet + after, path, st);
        let st1 = Scan { checksums: with_checksums(st.checksums, rest, table), ..st };
        lemma_scan_checksum(
            before + part,
            set_id,
            f.file_id,
            table[f.file_id],
            after,
            path,
            st1,
        );
    }
}

/// A recovery block that a scan of the file `path` found is the one that was written: it has the
/// exponent, and where its data are said to be, they are.
pub open spec fn is_written(
    found: parser::RecoveryView,
    file: Seq<u8>,
    block: (u32, Seq<u8>),
    block_size: u64,
    path: Seq<char>,
) -> bool {
    &&& found.exponent == block.0
    &&& found.data is None
    &&& found.file_path == path
    &&& found.data_length == block_size
    &&& found.data_offset + block.1.len() <= file.len()
    &&& file.subrange(found.data_offset as int, found.data_offset + block.1.len()) == block.1
}

/// The recovery blocks that a scan of the file `path` found are those that were written.
pub open spec fn are_written(
    found: Seq<parser::RecoveryView>,
    file: Seq<u8>,
    blocks: Seq<(u32, Seq<u8>)>,
    block_size: u64,
    path: Seq<char>,
) -> bool {
    &&& found.len() == blocks.len()
    &&& forall|i: int|
        0 <= i < blocks.len() ==> is_written(#[trigger] found[i], file, blocks[i], block_size, path)
}

pub proof fn lemma_recovery_written(
    before: Seq<u8>,
    set_id: Seq<u8>,
    block: (u32, Seq<u8>),
    after: Seq<u8>,
    block_size: u64,
    path: Seq<char>,
)
    requires
        set_id.len() == 16,
        (before + packets::packet(
            packets::RECV_SLICE@,
            set_id,
            writer::recovery_body(block.0, block.1),
        ) + after).len() <= u64::MAX,
    ensures
        ({
            let body = writer::recovery_body(block.0, block.1);
            let data = before + packets::packet(packets::RECV_SLICE@, set_id, body) + after;
            &&& packets::padded(body).len() >= 4
            &&& is_written(
                parser::recovery_at(data, before.len() as int, block_size, path),
                data,
                block,
                block_size,
                path,
            )
        }),
{
    let body = writer::recovery_body(block.0, block.1);
    let content = packets::padded(body);
    let packet = packets::packet(packets::RECV_SLICE@, set_id, body);
    let data = before + packet + after;
    let p = before.len() as int;
    lemma_packet_len(packets::RECV_SLICE@, set_id, body);
    packets::law_packet_reads_back(before, packets::RECV_SLICE@, set_id, body, after);
    packets::law_little_endian(0, block.0);
    assert(packets::packet_body(data, p) == content);
    assert(data.subrange(p + 64, p + 68) =~= content.subrange(0, 4));
    assert(content.subrange(0, 4) =~= packets::le32(block.0));
    assert(data.subrange(p + 68, p + 68 + block.1.len()) =~= content.subrange(
        4,
        4 + block.1.len() as int,
    ));
    assert(content.subrange(4, 4 + block.1.len() as int) =~= block.1);
}

proof fn lemma_scan_recovery_packet(
    before: Seq<u8>,
    set_id: Seq<u8>,
    block: (u32, Seq<u8>),
    after: Seq<u8>,
    path: Seq<char>,
    st: Scan,
) -> (found: parser::RecoveryView)
    requires
        set_id.len() == 16,
        st.set_id == set_id,
        st.block_size != 0,
        (before + packets::packet(
            packets::RECV_SLICE@,
            set_id,
            writer::recovery_body(block.0, block.1),
        ) + after).len() <= u64::MAX,
    ensures
        ({
            let body = writer::recovery_body(block.0, block.1);
            let packet = packets::packet(packets::RECV_SLICE@, set_id, body);
            let data = before + packet + after;
            &&& is_written(found, data, block, st.block_size, path)
            &&& scanned(data, before.len() as int, path, st) == scanned(
                data,
                (before.len() + packet.len()) as int,
                path,
                Scan { recovery: st.recovery.push(found), ..st },
            )
        }),
{
    let body = writer::recovery_body(block.0, block.1);
    let packet = packets::packet(packets::RECV_SLICE@, set_id, body);
    let data = before + packet + after;
    lemma_packet_len(packets::RECV_SLICE@, set_id, body);
    lemma_recovery_written(before, set_id, block, after, st.block_size, path);
    lemma_scan_packet(before, packets::RECV_SLICE@, set_id, body, after, path, st);
    parser::recovery_at(data, before.len() as int, st.block_size, path)
}

proof fn lemma_scan_recovery(
    before: Seq<u8>,
    set_id: Seq<u8>,
    blocks: Seq<(u32, Seq<u8>)>,
    after: Seq<u8>,
    path: Seq<char>,
    st: Scan,
) -> (found: Seq<parser::RecoveryView>)
    requires
        set_id.len() == 16,
        st.set_id == set_id,
        st.block_size != 0,
        (before + creator::recovery_packets(set_id, blocks) + after).len() <= u64::MAX,
    ensures
        ({
            let all = creator::recovery_packets(set_id, blocks);
            let data = before + all + after;
            &&& are_written(found, data, blocks, st.block_size, path)
            &&& scanned(data, before.len() as int, path, st) == scanned(
                data,
                (before.len() + all.len()) as int,
                path,
                Scan { recovery: st.recovery + found, ..st },
            )
        }),
    decreases blocks.len(),
{
    let all = creator::recovery_packets(set_id, blocks);
    let data = before + all + after;
    if blocks.len() == 0 {
        let found: Seq<parser::RecoveryView> = seq![];
        assert(st.recovery + found =~= st.recovery);
        found
    } else {
        let rest = blocks.drop_last();
        let block = blocks.last();
        let packet = packets::packet(
            packets::RECV_SLICE@,
            set_id,
            writer::recovery_body(block.0, block.1),
        );
        let part = creator::recovery_packets(set_id, rest);
        lemma_regroup(before, part, packet, after);
        let found = lemma_scan_recovery(before, set_id, rest, packet + after, path, st);
        let st1 = Scan { recovery: st.recovery + found, ..st };
        let here = lemma_scan_recovery_packet(before + part, set_id, block, after, path, st1);
        assert forall|i: int| 0 <= i < blocks.len() implies is_written(
            #[trigger] found.push(here)[i],
            data,
            blocks[i],
            st.block_size,
            path,
        ) by {
            if i < rest.len() {
                assert(is_written(found[i], data, rest[i], st.block_size, path));
            }
        }
        assert((st.recovery + found).push(here) =~= st.recovery + found.push(here));
        found.push(here)
    }
}

/// Five pieces put together in different ways.
pub proof fn lemma_regroup_five(c: Seq<u8>, m: Seq<u8>, d: Seq<u8>, k: Seq<u8>, r: Seq<u8>)
    ensures
        ({
            let data = c + m + d + k + r;
            &&& data == Seq::<u8>::empty() + c + (m + d + k + r)
            &&& data == c + m + (d + k + r)
            &&& data == (c + m) + d + (k + r)
            &&& data == (c + m + d) + k + r
            &&& data == (c + m + d + k) + r + Seq::<u8>::empty()
            &&& data.len() == c.len() + m.len() + d.len() + k.len() + r.len()
            &&& (c + m).len() == c.len() + m.len()
            &&& (c + m + d).len() == c.len() + m.len() + d.len()
            &&& (c + m + d + k).len() == c.len() + m.len() + d.len() + k.len()
        }),
{
    let data = c + m + d + k + r;
    assert(data =~= Seq::<u8>::empty() + c + (m + d + k + r));
    assert(data =~= c + m + (d + k + r));
    assert(data =~= (c + m) + d + (k + r));
    assert(data =~= (c + m + d + k) + r + Seq::<u8>::empty());
}

proof fn lemma_scan_head(
    set_id: Seq<u8>,
    block_size: u64,
    ids: Seq<Seq<u8>>,
    name: Seq<u8>,
    after: Seq<u8>,
    path: Seq<char>,
)
    requires
        set_id.len() == 16,
        are_ids(ids),
        ids.len() <= u32::MAX,
        packets::packet(packets::CREATOR@, set_id, name).len() <= u64::MAX,
        packets::packet(packets::MAIN@, set_id, writer::main_body(block_size, ids)).len()
            <= u64::MAX,
    ensures
        ({
            let c = packets::packet(packets::CREATOR@, set_id, name);
            let m = packets::packet(packets::MAIN@, set_id, writer::main_body(block_size, ids));
            let data = c + m + after;
            scanned(data, 0, path, loader::nothing()) == scanned(
                data,
                (c + m).len() as int,
                path,
                Scan { set_id, block_size, main_order: ids, ..loader::nothing() },
            )
        }),
{
    let body = writer::main_body(block_size, ids);
    let c = packets::packet(packets::CREATOR@, set_id, name);
    let m = packets::packet(packets::MAIN@, set_id, body);
    let data = c + m + after;
    let none = Seq::<u8>::empty();
    lemma_packet_len(packets::CREATOR@, set_id, name);
    lemma_packet_len(packets::MAIN@, set_id, body);
    lemma_kinds_differ();
    assert(packets::CREATOR@[8] == 67);
    assert(packets::MAIN@[8] == 77);
    assert(packets::RECV_SLICE@[8] == 82);
    lemma_regroup(none, none, c, m + after);
    lemma_regroup(none, c, m, after);
    assert(none + c =~= c);
    assert(none + (c + m) =~= c + m);
    lemma_scan_packet(
        none,
        packets::CREATOR@,
        set_id,
        name,
        m + after,
        path,
        loader::nothing(),
    );
    let st1 = Scan { set_id, ..loader::nothing() };
    assert(none + c + (m + after) == data);
    assert(scanned(data, 0, path, loader::nothing()) == scanned(
        data,
        c.len() as int,
        path,
        st1,
    ));
    lemma_scan_packet(c, packets::MAIN@, set_id, body, after, path, st1);
    law_main_packet_reads_back(block_size, ids);
}

/// The table of checksums holds those of all files of the set.
proof fn lemma_table_complete(
    files: Seq<FileView>,
    checksums: Seq<Seq<ChecksumView>>,
    n: nat,
    table: Map<Seq<u8>, Seq<ChecksumView>>,
)
    requires
        n <= files.len(),
    ensures
        forall|id: Seq<u8>|
            #[trigger] with_checksums(Map::empty(), files.take(n as int), table).dom().contains(id)
                <==> creator::checksum_table(files, checksums, n).dom().contains(id),
        forall|id: Seq<u8>|
            #[trigger] with_checksums(Map::empty(), files.take(n as int), table).dom().contains(id)
                ==> with_checksums(Map::empty(), files.take(n as int), table)[id] == table[id],
    decreases n,
{
    if n > 0 {
        lemma_table_complete(files, checksums, (n - 1) as nat, table);
        let first = files.take(n as int);
        assert(first.drop_last() =~= files.take(n - 1));
        assert(first.last() == files[n - 1]);
        assert(with_checksums(Map::empty(), first, table) == with_checksums(
            Map::empty(),
            files.take(n - 1),
            table,
        ).insert(files[n - 1].file_id, table[files[n - 1].file_id]));
    }
}

/// All checksums in the table have digests of 16 bytes.
proof fn lemma_table_digests(
    files: Seq<FileView>,
    checksums: Seq<Seq<ChecksumView>>,
    n: nat,
    id: Seq<u8>,
)
    requires
        n <= files.len(),
        files.len() == checksums.len(),
        forall|i: int| 0 <= i < checksums.len() ==> are_checksums(#[trigger] checksums[i]),
        creator::checksum_table(files, checksums, n).dom().contains(id),
    ensures
        are_checksums(creator::checksum_table(files, checksums, n)[id]),
    decreases n,
{
    if n > 0 && files[n - 1].file_id != id {
        lemma_table_digests(files, checksums, (n - 1) as nat, id);
    }
}

/// A set whose packets can be read: its digests have 16 bytes, the names of the files hold no zero
/// character, and the files can be counted.
pub open spec fn is_readable(set: SetView) -> bool {
    &&& are_readable(set.files)
    &&& set.files.len() == set.checksums.len()
    &&& set.files.len() <= u32::MAX
    &&& forall|i: int| 0 <= i < set.checksums.len() ==> are_checksums(#[trigger] set.checksums[i])
    &&& set.block_size != 0
}

/// A volume reads back: a scan finds the ID of the set, the block size, all files as they were
/// described and in the order of their descriptions, the sorted IDs, all checksums, and all recovery
/// blocks with their data.
pub proof fn law_volume_reads_back(set: SetView, blocks: Seq<(u32, Seq<u8>)>, path: Seq<char>)
    requires
        is_readable(set),
        creator::volume_bytes(set, blocks).len() <= u64::MAX,
    ensures
        ({
            let data = creator::volume_bytes(set, blocks);
            let st = loader::scan(data, 0, path, loader::nothing());
            &&& st.set_id == set.set_id()
            &&& st.block_size == set.block_size
            &&& st.files == with_files(Map::empty(), set.files)
            &&& st.found == set.files
            &&& st.checksums == set.table()
            &&& st.main_order == writer::sorted_ids(set.ids())
            &&& st.deferred.len() == 0
            &&& are_written(st.recovery, data, blocks, set.block_size, path)
        }),
{
    let id = set.set_id();
    let name = writer::utf8(creator::creator_name());
    let ids = writer::sorted_ids(set.ids());
    let c = packets::packet(packets::CREATOR@, id, name);
    let m = packets::packet(packets::MAIN@, id, set.main_packet());
    let d = creator::description_packets(id, set.files);
    let k = creator::checksum_packets(id, set.files, set.table());
    let r = creator::recovery_packets(id, blocks);
    let data = creator::volume_bytes(set, blocks);
    let none = Seq::<u8>::empty();
    lemma_regroup_five(c, m, d, k, r);
    assert(are_ids(set.ids())) by {
        assert forall|i: int| 0 <= i < set.files.len() implies (#[trigger] set.ids()[i]).len()
            == 16 by {
            assert(has_digests(set.files[i]));
        }
    }
    lemma_sorted_ids(set.ids());
    lemma_scan_head(id, set.block_size, ids, name, d + k + r, path);
    let st1 = Scan {
        set_id: id,
        block_size: set.block_size,
        main_order: ids,
        ..loader::nothing()
    };
    lemma_scan_descriptions(c + m, id, set.files, k + r, path, st1);
    let st2 = Scan {
        files: with_files(st1.files, set.files),
        found: st1.found + set.files,
        ..st1
    };
    assert(st2.found =~= set.files);
    let table = set.table();
    assert forall|i: int| 0 <= i < set.files.len() implies are_checksums(
        table[(#[trigger] set.files[i]).file_id],
    ) by {
        creator::lemma_table_has_all(set.files, set.checksums, set.files.len(), i);
        lemma_table_digests(set.files, set.checksums, set.files.len(), set.files[i].file_id);
    }
    lemma_scan_checksums(c + m + d, id, set.files, table, r, path, st2);
    lemma_table_complete(set.files, set.checksums, set.files.len(), table);
    assert(set.files.take(set.files.len() as int) =~= set.files);
    assert(with_checksums(Map::empty(), set.files, table) =~= table);
    let st3 = Scan { checksums: table, ..st2 };
    let found = lemma_scan_recovery(c + m + d + k, id, blocks, none, path, st3);
    let st4 = Scan { recovery: st3.recovery + found, ..st3 };
    assert(st4.recovery =~= found);
    reveal(scanned);
    assert(loader::scan(data, data.len() as int, path, st4) == st4);
}

} // verus!
