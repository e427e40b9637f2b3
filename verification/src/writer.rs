//! Writing PAR2 packets.

use vstd::prelude::*;

use crate::error::{Par2Error, Result};
use crate::galois::sums;
use crate::hash;
use crate::hash::compute_md5;
use crate::numbers;
use crate::numbers::write_le;
use crate::ordering;
use crate::packets;
use crate::packets::FileHash;
use crate::parser;
use crate::parser::{ChecksumView, FileInfo, FileView, RecoveryBlock, SliceChecksum};
use crate::solver;

verus! {

/// The UTF-8 bytes of a text.
pub open spec fn utf8(s: Seq<char>) -> Seq<u8> {
    vstd::utf8::encode_utf8(s)
}

/// Compute the ID of a file: the MD5 digest of the hash of its first 16 KiB, its length and its
/// name.
pub fn compute_file_id(hash_16k: &[u8; 16], length: u64, filename: &str) -> (r: FileHash)
    ensures
        r@ == hash::md5(hash_16k@ + packets::le64(length) + utf8(filename@)),
{
    let mut bytes: Vec<u8> = Vec::new();
    bytes.extend_from_slice(hash_16k.as_slice());
    write_le(&mut bytes, length, 8);
    bytes.extend_from_slice(filename.as_bytes());
    assert(bytes@ =~= hash_16k@ + packets::le64(length) + utf8(filename@));
    compute_md5(bytes.as_slice())
}

/// Compute the ID of a recovery set: the MD5 digest of the body of its main packet.
pub fn compute_recovery_set_id(main_packet_body: &[u8]) -> (r: FileHash)
    ensures
        r@ == hash::md5(main_packet_body@),
{
    compute_md5(main_packet_body)
}

/// Fill up bytes with zeros to a multiple of 4.
pub fn pad_to_alignment(data: &[u8]) -> (r: Vec<u8>)
    ensures
        r@ == packets::padded(data@),
{
    let mut r: Vec<u8> = vstd::slice::slice_to_vec(data);
    let missing: usize = (4 - data.len() % 4) % 4;
    for i in 0..missing
        invariant
            r@ == data@ + Seq::new(i as nat, |k: int| 0u8),
    {
        r.push(0);
        assert(r@ =~= data@ + Seq::new((i + 1) as nat, |k: int| 0u8));
    }
    assert(missing == packets::aligned(data@.len() as int) - data@.len());
    assert(r@ =~= packets::padded(data@));
    r
}

/// Append a packet with its header and body.
pub fn write_packet(
    writer: &mut Vec<u8>,
    packet_type: &[u8; 16],
    recovery_set_id: &FileHash,
    body: &[u8],
) -> (r: Result<()>)
    ensures
        r is Ok,
        final(writer)@ == old(writer)@ + packets::packet(packet_type@, recovery_set_id@, body@),
{
    let content = pad_to_alignment(body);
    let mut hashed: Vec<u8> = Vec::new();
    hashed.extend_from_slice(recovery_set_id.as_slice());
    hashed.extend_from_slice(packet_type.as_slice());
    hashed.extend_from_slice(content.as_slice());
    assert(hashed@ =~= recovery_set_id@ + packet_type@ + content@);
    let digest = compute_md5(hashed.as_slice());
    let magic = packets::PAR2_MAGIC;
    let mut whole: Vec<u8> = Vec::new();
    whole.extend_from_slice(magic.as_slice());
    write_le(&mut whole, 0, 8);
    whole.extend_from_slice(digest.as_slice());
    whole.extend_from_slice(recovery_set_id.as_slice());
    whole.extend_from_slice(packet_type.as_slice());
    whole.extend_from_slice(content.as_slice());
    proof {
        numbers::lemma_le_bytes_len(0, 8);
    }
    let packet_length: u64 = whole.len() as u64;
    assert(packet_length == 64 + content@.len());
    let mut length_bytes: Vec<u8> = Vec::new();
    write_le(&mut length_bytes, packet_length, 8);
    proof {
        numbers::lemma_le_bytes_len(packet_length as nat, 8);
    }
    let ghost blank = whole@;
    for i in 0..8usize
        invariant
            length_bytes@.len() == 8,
            whole@.len() == blank.len(),
            blank.len() >= 64,
            forall|k: int| 0 <= k < i ==> whole@[8 + k] == length_bytes@[k],
            forall|k: int| 0 <= k < blank.len() && !(8 <= k < 16) ==> whole@[k] == blank[k],
    {
        whole[8 + i] = length_bytes[i];
    }
    writer.extend_from_slice(whole.as_slice());
    proof {
        let packet = packets::packet(packet_type@, recovery_set_id@, body@);
        assert(length_bytes@ =~= packets::le64(packet_length));
        assert(blank.take(8) =~= magic@);
        assert(whole@.take(8) =~= blank.take(8));
        assert(whole@.subrange(8, 16) =~= length_bytes@);
        assert(whole@.skip(16) =~= digest@ + recovery_set_id@ + packet_type@ + content@) by {
            assert(blank.skip(16) =~= digest@ + recovery_set_id@ + packet_type@ + content@);
        }
        assert(whole@ =~= whole@.take(8) + whole@.subrange(8, 16) + whole@.skip(16));
        assert(whole@ =~= packet);
    }
    Ok(())
}

/// Append a creator packet.
pub fn write_creator_packet(
    writer: &mut Vec<u8>,
    recovery_set_id: &FileHash,
    creator_text: &str,
) -> (r: Result<()>)
    ensures
        r is Ok,
        final(writer)@ == old(writer)@ + packets::packet(
            packets::CREATOR@,
            recovery_set_id@,
            utf8(creator_text@),
        ),
{
    write_packet(writer, &packets::CREATOR, recovery_set_id, creator_text.as_bytes())
}

/// IDs as sort keys.
pub open spec fn id_keys(ids: Seq<Seq<u8>>) -> Seq<(u64, u128)> {
    Seq::new(ids.len(), |i: int| (0u64, ordering::big_endian(ids[i])))
}

/// The order that sorts IDs.
pub open spec fn id_order(ids: Seq<Seq<u8>>) -> Seq<int> {
    choose|order: Seq<int>| #[trigger] ordering::is_stable_order(id_keys(ids), order)
}

/// IDs in lexicographic order.
pub open spec fn sorted_ids(ids: Seq<Seq<u8>>) -> Seq<Seq<u8>> {
    let order = id_order(ids);
    Seq::new(ids.len(), |i: int| ids[order[i]])
}

/// IDs one after the other.
pub open spec fn joined_ids(ids: Seq<Seq<u8>>) -> Seq<u8>
    decreases ids.len(),
{
    if ids.len() == 0 {
        seq![]
    } else {
        joined_ids(ids.drop_last()) + ids.last()
    }
}

/// The body of a main packet: the block size, the number of files, and their IDs.
pub open spec fn main_body(block_size: u64, ids: Seq<Seq<u8>>) -> Seq<u8> {
    packets::le64(block_size) + packets::le32(ids.len() as u32) + joined_ids(ids)
}

/// The body of a file description.
pub open spec fn file_desc_body(f: FileView) -> Seq<u8> {
    f.file_id + f.hash + f.hash_16k + packets::le64(f.length) + utf8(f.name) + seq![0u8]
}

/// Checksums one after the other.
pub open spec fn joined_checksums(checksums: Seq<ChecksumView>) -> Seq<u8>
    decreases checksums.len(),
{
    if checksums.len() == 0 {
        seq![]
    } else {
        joined_checksums(checksums.drop_last()) + checksums.last().md5 + packets::le32(
            checksums.last().crc32,
        )
    }
}

/// The body of an IFSC packet: the ID of a file, and the checksums of its blocks.
pub open spec fn ifsc_body(file_id: Seq<u8>, checksums: Seq<ChecksumView>) -> Seq<u8> {
    file_id + joined_checksums(checksums)
}

/// The body of a recovery packet: the exponent and the data.
pub open spec fn recovery_body(exponent: u32, data: Seq<u8>) -> Seq<u8> {
    packets::le32(exponent) + data
}

/// Find the order that sorts IDs.
pub fn order_ids(ids: &[FileHash]) -> (r: Vec<usize>)
    ensures
        solver::indices(r@) == id_order(parser::id_views(ids@)),
        sums::is_permutation(id_order(parser::id_views(ids@)), ids@.len()),
{
    let n: usize = ids.len();
    let ghost views = parser::id_views(ids@);
    let mut keys: Vec<(u64, u128)> = Vec::with_capacity(n);
    for i in 0..n
        invariant
            n == ids@.len(),
            views == parser::id_views(ids@),
            keys@.len() == i,
            forall|k: int| 0 <= k < i ==> #[trigger] keys@[k] == id_keys(views)[k],
    {
        keys.push((0u64, ordering::big_endian_number(&ids[i])));
    }
    assert(keys@ =~= id_keys(views));
    let order = ordering::stable_order(&keys);
    proof {
        let places = solver::indices(order@);
        assert(ordering::is_stable_order(id_keys(views), places));
        ordering::law_stable_order_unique(id_keys(views), places, id_order(views));
    }
    order
}

/// Bring IDs into lexicographic order.
pub fn sort_ids(ids: &[FileHash]) -> (r: Vec<FileHash>)
    ensures
        parser::id_views(r@) == sorted_ids(parser::id_views(ids@)),
{
    let n: usize = ids.len();
    let ghost views = parser::id_views(ids@);
    let order = order_ids(ids);
    let ghost places = solver::indices(order@);
    let mut sorted: Vec<FileHash> = Vec::with_capacity(n);
    for i in 0..n
        invariant
            n == ids@.len(),
            n == order@.len(),
            views == parser::id_views(ids@),
            places == solver::indices(order@),
            sums::is_permutation(places, n as nat),
            sorted@.len() == i,
            forall|k: int| 0 <= k < i ==> (#[trigger] sorted@[k])@ == views[places[k]],
    {
        assert(0 <= places[i as int] < n);
        sorted.push(ids[order[i]]);
    }
    assert(parser::id_views(sorted@) =~= sorted_ids(views));
    sorted
}

/// Build the body of a main packet: the IDs are sorted.
pub fn build_main_body(block_size: u64, file_ids: &[FileHash]) -> (r: Vec<u8>)
    ensures
        r@ == main_body(block_size, sorted_ids(parser::id_views(file_ids@))),
        r@.len() == 12 + 16 * file_ids@.len(),
{
    let mut body: Vec<u8> = Vec::new();
    write_le(&mut body, block_size, 8);
    write_le(&mut body, (file_ids.len() as u32) as u64, 4);
    let ghost head = body@;
    let sorted = sort_ids(file_ids);
    let ghost views = parser::id_views(sorted@);
    let n: usize = sorted.len();
    proof {
        numbers::lemma_le_bytes_len(block_size as nat, 8);
        numbers::lemma_le_bytes_len((file_ids@.len() as u32) as nat, 4);
        assert(views.take(0) =~= seq![]);
        assert(head + joined_ids(views.take(0)) =~= head);
        assert(n == file_ids@.len()) by {
            assert(views == sorted_ids(parser::id_views(file_ids@)));
            assert(views.len() == sorted_ids(parser::id_views(file_ids@)).len());
        }
    }
    for i in 0..n
        invariant
            n == sorted@.len(),
            views == parser::id_views(sorted@),
            body@ == head + joined_ids(views.take(i as int)),
            body@.len() == 12 + 16 * i,
    {
        body.extend_from_slice(sorted[i].as_slice());
        proof {
            let now = views.take(i + 1);
            assert(now.drop_last() =~= views.take(i as int));
            assert(now.last() == sorted@[i as int]@);
            assert(body@ =~= head + joined_ids(now));
        }
    }
    proof {
        assert(views.take(n as int) =~= views);
        assert(head =~= packets::le64(block_size) + packets::le32(views.len() as u32));
    }
    body
}

/// Append a main packet. The IDs are sorted.
pub fn write_main_packet(
    writer: &mut Vec<u8>,
    recovery_set_id: &FileHash,
    block_size: u64,
    file_ids: &[FileHash],
) -> (r: Result<()>)
    ensures
        r is Ok,
        final(writer)@ == old(writer)@ + packets::packet(
            packets::MAIN@,
            recovery_set_id@,
            main_body(block_size, sorted_ids(parser::id_views(file_ids@))),
        ),
{
    let body = build_main_body(block_size, file_ids);
    write_packet(writer, &packets::MAIN, recovery_set_id, body.as_slice())
}

/// Append a file description.
pub fn write_file_desc_packet(
    writer: &mut Vec<u8>,
    recovery_set_id: &FileHash,
    file_info: &FileInfo,
) -> (r: Result<()>)
    ensures
        r is Ok,
        final(writer)@ == old(writer)@ + packets::packet(
            packets::FILE_DESC@,
            recovery_set_id@,
            file_desc_body(file_info@),
        ),
{
    let mut body: Vec<u8> = Vec::new();
    body.extend_from_slice(file_info.file_id.as_slice());
    body.extend_from_slice(file_info.hash.as_slice());
    body.extend_from_slice(file_info.hash_16k.as_slice());
    write_le(&mut body, file_info.length, 8);
    body.extend_from_slice(file_info.name.as_str().as_bytes());
    body.push(0);
    proof {
        numbers::lemma_le_bytes_len(file_info.length as nat, 8);
        assert(body@ =~= file_desc_body(file_info@));
    }
    write_packet(writer, &packets::FILE_DESC, recovery_set_id, body.as_slice())
}

/// Append an IFSC packet: the checksums of the blocks of a file.
pub fn write_ifsc_packet(
    writer: &mut Vec<u8>,
    recovery_set_id: &FileHash,
    file_id: &FileHash,
    checksums: &[SliceChecksum],
) -> (r: Result<()>)
    ensures
        r is Ok,
        final(writer)@ == old(writer)@ + packets::packet(
            packets::IFSC@,
            recovery_set_id@,
            ifsc_body(file_id@, parser::checksum_views(checksums@)),
        ),
{
    let mut body: Vec<u8> = Vec::new();
    body.extend_from_slice(file_id.as_slice());
    let ghost views = parser::checksum_views(checksums@);
    let n: usize = checksums.len();
    proof {
        assert(views.take(0) =~= seq![]);
        assert(body@ =~= file_id@ + joined_checksums(views.take(0)));
    }
    for i in 0..n
        invariant
            n == checksums@.len(),
            views == parser::checksum_views(checksums@),
            body@ == file_id@ + joined_checksums(views.take(i as int)),
            body@.len() == 16 + 20 * i,
    {
        let ghost before = body@;
        body.extend_from_slice(checksums[i].md5.as_slice());
        write_le(&mut body, checksums[i].crc32 as u64, 4);
        proof {
            numbers::lemma_le_bytes_len(checksums@[i as int].crc32 as nat, 4);
            let now = views.take(i + 1);
            assert(now.drop_last() =~= views.take(i as int));
            assert(now.last() == checksums@[i as int]@);
            assert(body@ =~= file_id@ + joined_checksums(now));
        }
    }
    assert(views.take(n as int) =~= views);
    write_packet(writer, &packets::IFSC, recovery_set_id, body.as_slice())
}

/// Append a recovery packet. `file` holds the contents of the file of the block; data in memory are
/// taken instead. It is an error if the file ends before the data do: it carries the message of the
/// read error, and nothing is appended then.
pub fn write_recovery_slice_packet(
    writer: &mut Vec<u8>,
    recovery_set_id: &FileHash,
    recovery_block: &RecoveryBlock,
    file: &[u8],
) -> (r: Result<()>)
    requires
        recovery_block.data_length <= usize::MAX,
    ensures
        recovery_block.data matches Some(v) ==> r is Ok && final(writer)@ == old(writer)@
            + packets::packet(
            packets::RECV_SLICE@,
            recovery_set_id@,
            recovery_body(recovery_block.exponent, v@),
        ),
        recovery_block.data is None ==> match recovery_block.chunk(
            file@,
            0,
            recovery_block.data_length as int,
        ) {
            Some(data) => r is Ok && final(writer)@ == old(writer)@ + packets::packet(
                packets::RECV_SLICE@,
                recovery_set_id@,
                recovery_body(recovery_block.exponent, data),
            ),
            None => (r matches Err(Par2Error::Io(m)) && m@
                == "I/O error: failed to fill whole buffer"@) && final(writer)@ == old(writer)@,
        },
{
    match recovery_block.read_all(file) {
        Ok(data) => {
            let mut body: Vec<u8> = Vec::new();
            write_le(&mut body, recovery_block.exponent as u64, 4);
            body.extend_from_slice(data.as_slice());
            proof {
                numbers::lemma_le_bytes_len(recovery_block.exponent as nat, 4);
                assert(body@ =~= recovery_body(recovery_block.exponent, data@));
            }
            write_packet(writer, &packets::RECV_SLICE, recovery_set_id, body.as_slice())
        },
        Err(e) => {
            proof {
                reveal_strlit("I/O error: ");
                reveal_strlit("failed to fill whole buffer");
                reveal_strlit("I/O error: failed to fill whole buffer");
                assert("I/O error: "@ + "failed to fill whole buffer"@
                    =~= "I/O error: failed to fill whole buffer"@);
            }
            Err(Par2Error::Io(e.message()))
        },
    }
}

} // verus!
