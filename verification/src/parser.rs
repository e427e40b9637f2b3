//! Reading PAR2 files.

use vstd::prelude::*;

use crate::error::{Par2Error, Result};
use crate::hash;
use crate::hash::same_digest;
use crate::numbers;
use crate::packets;
use crate::packets::FileHash;

verus! {

/// Types of packets.
#[derive(Debug, Clone, Copy, PartialEq, Eq, Structural)]
pub enum PacketType {
    Main,
    FileDescription,
    InputFileSlice,
    RecoverySlice,
    Creator,
    Unknown,
}

/// The type of packet that 16 bytes name.
pub open spec fn packet_type(kind: Seq<u8>) -> PacketType {
    if kind == packets::MAIN@ {
        PacketType::Main
    } else if kind == packets::FILE_DESC@ {
        PacketType::FileDescription
    } else if kind == packets::IFSC@ {
        PacketType::InputFileSlice
    } else if kind == packets::RECV_SLICE@ {
        PacketType::RecoverySlice
    } else if kind == packets::CREATOR@ {
        PacketType::Creator
    } else {
        PacketType::Unknown
    }
}

impl PacketType {
    /// The type of packet that 16 bytes name.
    pub fn from_bytes(bytes: &[u8; 16]) -> (r: PacketType)
        ensures
            r == packet_type(bytes@),
    {
        if same_digest(bytes, &packets::MAIN) {
            PacketType::Main
        } else if same_digest(bytes, &packets::FILE_DESC) {
            PacketType::FileDescription
        } else if same_digest(bytes, &packets::IFSC) {
            PacketType::InputFileSlice
        } else if same_digest(bytes, &packets::RECV_SLICE) {
            PacketType::RecoverySlice
        } else if same_digest(bytes, &packets::CREATOR) {
            PacketType::Creator
        } else {
            PacketType::Unknown
        }
    }
}

/// What a file description says of a file.
#[verifier::ext_equal]
pub struct FileView {
    pub file_id: Seq<u8>,
    pub hash: Seq<u8>,
    pub hash_16k: Seq<u8>,
    pub length: u64,
    pub name: Seq<char>,
}

/// Information about a protected file.
#[derive(Debug)]
pub struct FileInfo {
    pub file_id: FileHash,
    pub hash: FileHash,
    pub hash_16k: FileHash,
    pub length: u64,
    pub name: String,
}

impl View for FileInfo {
    type V = FileView;

    open spec fn view(&self) -> FileView {
        FileView {
            file_id: self.file_id@,
            hash: self.hash@,
            hash_16k: self.hash_16k@,
            length: self.length,
            name: self.name@,
        }
    }
}

impl Clone for FileInfo {
    fn clone(&self) -> (r: FileInfo)
        ensures
            r@ == self@,
    {
        FileInfo {
            file_id: self.file_id,
            hash: self.hash,
            hash_16k: self.hash_16k,
            length: self.length,
            name: self.name.clone(),
        }
    }
}

/// Checksums of one block of a file.
#[verifier::ext_equal]
pub struct ChecksumView {
    pub md5: Seq<u8>,
    pub crc32: u32,
}

/// Checksums of one block of a file.
#[derive(Debug)]
pub struct SliceChecksum {
    pub md5: [u8; 16],
    pub crc32: u32,
}

impl View for SliceChecksum {
    type V = ChecksumView;

    open spec fn view(&self) -> ChecksumView {
        ChecksumView { md5: self.md5@, crc32: self.crc32 }
    }
}

impl Clone for SliceChecksum {
    fn clone(&self) -> (r: SliceChecksum)
        ensures
            r@ == self@,
    {
        SliceChecksum { md5: self.md5, crc32: self.crc32 }
    }
}

/// The contents of checksums.
pub open spec fn checksum_views(s: Seq<SliceChecksum>) -> Seq<ChecksumView> {
    Seq::new(s.len(), |i: int| s[i]@)
}

/// A recovery block: its exponent, and its data or where they are.
#[verifier::ext_equal]
pub struct RecoveryView {
    pub exponent: u32,
    pub data: Option<Seq<u8>>,
    pub file_path: Seq<char>,
    pub data_offset: u64,
    pub data_length: u64,
}

/// A recovery block: its exponent, and its data or where they are.
#[derive(Debug)]
pub struct RecoveryBlock {
    pub exponent: u32,
    /// The data, if they are in memory.
    pub data: Option<Vec<u8>>,
    /// The file that holds the data otherwise.
    pub file_path: String,
    /// Where in the file the data start.
    pub data_offset: u64,
    /// Length of the data.
    pub data_length: u64,
}

impl View for RecoveryBlock {
    type V = RecoveryView;

    open spec fn view(&self) -> RecoveryView {
        RecoveryView {
            exponent: self.exponent,
            data: match self.data {
                Some(v) => Some(v@),
                None => None,
            },
            file_path: self.file_path@,
            data_offset: self.data_offset,
            data_length: self.data_length,
        }
    }
}

impl Clone for RecoveryBlock {
    fn clone(&self) -> (r: RecoveryBlock)
        ensures
            r@ == self@,
    {
        let data: Option<Vec<u8>> = match &self.data {
            Some(v) => Some(v.clone()),
            None => None,
        };
        RecoveryBlock {
            exponent: self.exponent,
            data,
            file_path: self.file_path.clone(),
            data_offset: self.data_offset,
            data_length: self.data_length,
        }
    }
}

/// The contents of recovery blocks.
pub open spec fn recovery_views(s: Seq<RecoveryBlock>) -> Seq<RecoveryView> {
    Seq::new(s.len(), |i: int| s[i]@)
}

/// The contents of file descriptions.
pub open spec fn file_views(s: Seq<FileInfo>) -> Seq<FileView> {
    Seq::new(s.len(), |i: int| s[i]@)
}

/// The smaller of two numbers.
pub open spec fn least(a: int, b: int) -> int {
    if a <= b {
        a
    } else {
        b
    }
}

/// The part of `data` from `offset` on, at most `size` bytes.
pub open spec fn piece(data: Seq<u8>, offset: int, size: int) -> Seq<u8> {
    data.subrange(
        least(offset, data.len() as int),
        least(offset + size, data.len() as int),
    )
}

impl RecoveryBlock {
    /// Create a recovery block whose data are in memory.
    pub fn from_memory(exponent: u32, data: Vec<u8>) -> (r: RecoveryBlock)
        ensures
            r.exponent == exponent,
            r.data matches Some(v) && v@ == data@,
            r.file_path@.len() == 0,
            r.data_offset == 0,
            r.data_length == data@.len(),
    {
        let data_length: u64 = data.len() as u64;
        RecoveryBlock {
            exponent,
            data: Some(data),
            file_path: String::new(),
            data_offset: 0,
            data_length,
        }
    }

    /// What `read_chunk` gives: the part of the data in memory; or else, of the contents of the
    /// file, the part that starts at the offset of the data.
    pub open spec fn chunk(&self, file: Seq<u8>, offset: int, size: int) -> Option<Seq<u8>> {
        match self.data {
            Some(v) => Some(piece(v@, offset, size)),
            None => {
                let start = self.data_offset + offset;
                let n = if offset >= self.data_length {
                    0
                } else {
                    least(size, self.data_length - offset)
                };
                if start + n <= file.len() {
                    Some(file.subrange(start, start + n))
                } else if n == 0 {
                    Some(Seq::empty())
                } else {
                    None
                }
            },
        }
    }

    /// Read a chunk of the data. `file` holds the contents of the file of the block; data in
    /// memory are read from there instead. It is an error if the file ends before the chunk does.
    pub fn read_chunk(&self, file: &[u8], chunk_offset: usize, chunk_size: usize) -> (r: Result<
        Vec<u8>,
    >)
        requires
            self.data is Some ==> chunk_offset + chunk_size <= usize::MAX,
            self.data is None ==> self.data_offset + chunk_offset <= u64::MAX,
            self.data_length <= usize::MAX,
        ensures
            r is Ok <==> self.chunk(file@, chunk_offset as int, chunk_size as int) is Some,
            r matches Ok(v) ==> self.chunk(file@, chunk_offset as int, chunk_size as int) == Some(
                v@,
            ),
            r matches Err(e) ==> e matches Par2Error::Io(m) && m@ == "failed to fill whole buffer"@,
    {
        match &self.data {
            Some(data) => {
                let n: usize = data.len();
                let end: usize = if chunk_offset + chunk_size <= n {
                    chunk_offset + chunk_size
                } else {
                    n
                };
                let start: usize = if chunk_offset <= n {
                    chunk_offset
                } else {
                    n
                };
                let v: Vec<u8> = vstd::slice::slice_to_vec(&data.as_slice()[start..end]);
                Ok(v)
            },
            None => {
                let length: usize = self.data_length as usize;
                let left: usize = if chunk_offset >= length {
                    0
                } else {
                    length - chunk_offset
                };
                let count: usize = if chunk_size <= left {
                    chunk_size
                } else {
                    left
                };
                let start: u64 = self.data_offset + chunk_offset as u64;
                let total: u64 = file.len() as u64;
                if start <= total && count as u64 <= total - start {
                    let from: usize = start as usize;
                    let v: Vec<u8> = vstd::slice::slice_to_vec(&file[from..from + count]);
                    return Ok(v);
                }
                if count == 0 {
                    let v: Vec<u8> = Vec::new();
                    assert(v@ =~= Seq::<u8>::empty());
                    return Ok(v);
                }
                Err(Par2Error::Io("failed to fill whole buffer".to_owned()))
            },
        }
    }

    /// Read all data of the block.
    pub fn read_all(&self, file: &[u8]) -> (r: Result<Vec<u8>>)
        requires
            self.data_length <= usize::MAX,
        ensures
            self.data matches Some(v) ==> (r matches Ok(w) && w@ == v@),
            self.data is None ==> (r is Ok <==> self.chunk(
                file@,
                0,
                self.data_length as int,
            ) is Some),
            self.data is None && r is Ok ==> self.chunk(file@, 0, self.data_length as int) == Some(
                r->Ok_0@,
            ),
            r matches Err(e) ==> e matches Par2Error::Io(m) && m@ == "failed to fill whole buffer"@,
    {
        match &self.data {
            Some(data) => Ok(data.clone()),
            None => self.read_chunk(file, 0, self.data_length as usize),
        }
    }
}

/// The 16 bytes at `p`.
pub fn id_at(data: &[u8], p: usize) -> (r: FileHash)
    requires
        p + 16 <= data@.len(),
    ensures
        r@ == packets::id_at(data@, p as int),
{
    let mut id: [u8; 16] = [0u8; 16];
    let n: usize = data.len();
    for i in 0..16usize
        invariant
            n == data@.len(),
            p + 16 <= n,
            forall|j: int| 0 <= j < i ==> id@[j] == data@[p + j],
    {
        id[i] = data[p + i];
    }
    assert(id@ =~= packets::id_at(data@, p as int));
    id
}

/// The 64-bit number at `p`.
pub(crate) fn u64_at(data: &[u8], p: usize) -> (r: u64)
    requires
        p + 8 <= data@.len(),
    ensures
        r == packets::u64_at(data@, p as int),
{
    numbers::read_le(data, p, 8)
}

/// The 32-bit number at `p`.
fn u32_at(data: &[u8], p: usize) -> (r: u32)
    requires
        p + 4 <= data@.len(),
    ensures
        r == packets::u32_at(data@, p as int),
{
    proof {
        numbers::lemma_number_of_16(data@.subrange(p as int, p + 4));
    }
    numbers::read_le(data, p, 4) as u32
}

/// The bytes at `p` begin with the magic.
pub(crate) fn has_magic(data: &[u8], p: usize) -> (r: bool)
    requires
        p + 8 <= data@.len(),
    ensures
        r == packets::has_magic(data@, p as int),
{
    let n: usize = data.len();
    for i in 0..8usize
        invariant
            n == data@.len(),
            p + 8 <= n,
            forall|j: int| 0 <= j < i ==> data@[p + j] == packets::PAR2_MAGIC@[j],
    {
        if data[p + i] != packets::PAR2_MAGIC[i] {
            assert(data@.subrange(p as int, p + 8)[i as int] != packets::PAR2_MAGIC@[i as int]);
            return false;
        }
    }
    assert(data@.subrange(p as int, p + 8) =~= packets::PAR2_MAGIC@);
    true
}

/// What `String::from_utf8_lossy` gives for bytes that are not valid UTF-8.
pub uninterp spec fn lossy_decoded(bytes: Seq<u8>) -> Seq<char>;

/// The text that bytes stand for. Bytes that are not valid UTF-8 are replaced.
pub open spec fn lossy_text(bytes: Seq<u8>) -> Seq<char> {
    if vstd::utf8::valid_utf8(bytes) {
        vstd::utf8::decode_utf8(bytes)
    } else {
        lossy_decoded(bytes)
    }
}

/// Calls `String::from_utf8_lossy`. The contract says that valid UTF-8 is decoded, and names the
/// result for other bytes, where invalid sequences are replaced, `lossy_decoded`.
#[verifier::external_body]
fn text_from_utf8_lossy(bytes: &[u8]) -> (r: String)
    ensures
        r@ == (if vstd::utf8::valid_utf8(bytes@) {
            vstd::utf8::decode_utf8(bytes@)
        } else {
            lossy_decoded(bytes@)
        }),
{
    String::from_utf8_lossy(bytes).to_string()
}

/// The contents of a main packet: the block size, and the IDs of the files of the recovery set in
/// the order in which their blocks are numbered.
pub struct MainPacket {
    pub block_size: u64,
    pub recovery_file_ids: Vec<FileHash>,
}

/// The number of file IDs in the body of a main packet: as many as it says, as far as they are
/// there.
pub open spec fn main_id_count(body: Seq<u8>) -> int {
    if body.len() < 12 {
        0
    } else {
        least(packets::u32_at(body, 8) as int, (body.len() - 12) / 16)
    }
}

/// The file IDs in the body of a main packet.
pub open spec fn main_ids(body: Seq<u8>) -> Seq<Seq<u8>> {
    Seq::new(main_id_count(body) as nat, |i: int| packets::id_at(body, 12 + 16 * i))
}

/// The contents of IDs.
pub open spec fn id_views(ids: Seq<FileHash>) -> Seq<Seq<u8>> {
    Seq::new(ids.len(), |i: int| ids[i]@)
}

/// Parse the body of a main packet. `None` if it is too short for the block size.
pub fn complete_main_packet(body: &[u8]) -> (r: Option<MainPacket>)
    ensures
        r is None <==> body@.len() < 8,
        r matches Some(m) ==> m.block_size == packets::u64_at(body@, 0) && id_views(
            m.recovery_file_ids@,
        ) == main_ids(body@),
{
    if body.len() < 8 {
        return None;
    }
    let block_size: u64 = u64_at(body, 0);
    let mut ids: Vec<FileHash> = Vec::new();
    if body.len() >= 12 {
        let total: usize = body.len();
        let count: usize = u32_at(body, 8) as usize;
        let mut off: usize = 12;
        let mut i: usize = 0;
        let ghost want = main_ids(body@);
        while i < count && total - off >= 16
            invariant
                total == body@.len(),
                total >= 12,
                count == packets::u32_at(body@, 8),
                off <= total,
                off == 12 + 16 * i,
                i <= count,
                i == ids@.len(),
                forall|k: int| 0 <= k < i ==> (#[trigger] ids@[k])@ == packets::id_at(
                    body@,
                    12 + 16 * k,
                ),
            decreases count - i,
        {
            ids.push(id_at(body, off));
            off = off + 16;
            i = i + 1;
        }
        assert(i == main_id_count(body@));
    }
    assert(id_views(ids@) =~= main_ids(body@));
    Some(MainPacket { block_size, recovery_file_ids: ids })
}

/// Where the name in the body of a file description ends: at the first zero byte, or with the body.
pub open spec fn name_end(body: Seq<u8>, from: int) -> int
    decreases body.len() - from,
{
    if from >= body.len() || body[from] == 0 {
        from
    } else {
        name_end(body, from + 1)
    }
}

/// What the body of a file description says. `None` if it is too short.
pub open spec fn file_description(body: Seq<u8>) -> Option<FileView> {
    if body.len() < 56 {
        None
    } else {
        Some(
            FileView {
                file_id: packets::id_at(body, 0),
                hash: packets::id_at(body, 16),
                hash_16k: packets::id_at(body, 32),
                length: packets::u64_at(body, 48),
                name: lossy_text(body.subrange(56, name_end(body, 56))),
            },
        )
    }
}

/// Parse the body of a file description. `None` if it is too short.
pub fn parse_file_desc_from_body(body: &[u8]) -> (r: Option<FileInfo>)
    ensures
        r is Some <==> file_description(body@) is Some,
        r matches Some(f) ==> file_description(body@) == Some(f@),
{
    if body.len() < 56 {
        return None;
    }
    let total: usize = body.len();
    let mut end: usize = 56;
    while end < total && body[end] != 0
        invariant
            56 <= end <= total,
            total == body@.len(),
            name_end(body@, 56) == name_end(body@, end as int),
        decreases total - end,
    {
        end = end + 1;
    }
    let name = text_from_utf8_lossy(&body[56..end]);
    Some(
        FileInfo {
            file_id: id_at(body, 0),
            hash: id_at(body, 16),
            hash_16k: id_at(body, 32),
            length: u64_at(body, 48),
            name,
        },
    )
}

/// The checksums in the body of an IFSC packet, 20 bytes each after the file ID.
pub open spec fn ifsc_checksums(body: Seq<u8>) -> Seq<ChecksumView> {
    Seq::new(
        ((body.len() - 16) / 20) as nat,
        |i: int|
            ChecksumView {
                md5: packets::id_at(body, 16 + 20 * i),
                crc32: packets::u32_at(body, 32 + 20 * i),
            },
    )
}

/// Parse the body of an IFSC packet: the ID of a file and the checksums of its blocks. It is an
/// error if the body is too short for the ID.
pub fn parse_ifsc_from_body(body: &[u8]) -> (r: Result<(FileHash, Vec<SliceChecksum>)>)
    ensures
        r is Ok <==> body@.len() >= 16,
        r matches Ok(v) ==> v.0@ == packets::id_at(body@, 0) && checksum_views(v.1@)
            == ifsc_checksums(body@),
        r matches Err(e) ==> e matches Par2Error::RepairFailed(m) && m@
            == "IFSC packet too small"@,
{
    if body.len() < 16 {
        return Err(Par2Error::RepairFailed("IFSC packet too small".to_owned()));
    }
    let total: usize = body.len();
    let count: usize = (total - 16) / 20;
    let mut checksums: Vec<SliceChecksum> = Vec::with_capacity(count);
    for i in 0..count
        invariant
            total == body@.len(),
            total >= 16,
            count == (total - 16) / 20,
            checksums@.len() == i,
            forall|k: int|
                0 <= k < i ==> (#[trigger] checksums@[k])@ == ifsc_checksums(body@)[k],
    {
        assert(16 + 20 * i + 20 <= total);
        let offset: usize = 16 + i * 20;
        checksums.push(
            SliceChecksum { md5: id_at(body, offset), crc32: u32_at(body, offset + 16) },
        );
    }
    assert(checksum_views(checksums@) =~= ifsc_checksums(body@));
    Ok((id_at(body, 0), checksums))
}

/// The recovery block of the packet at `p`: its exponent is at the start of the body, and its data
/// follow.
pub open spec fn recovery_at(
    data: Seq<u8>,
    p: int,
    block_size: u64,
    path: Seq<char>,
) -> RecoveryView {
    RecoveryView {
        exponent: packets::u32_at(data, p + 64),
        data: None,
        file_path: path,
        data_offset: (p + 68) as u64,
        data_length: block_size,
    }
}

/// The recovery block of the packet at `p`.
pub(crate) fn parse_recovery(data: &[u8], p: usize, block_size: u64, path: &str) -> (r: RecoveryBlock)
    requires
        p + 68 <= data@.len(),
    ensures
        r@ == recovery_at(data@, p as int, block_size, path@),
{
    let n: usize = data.len();
    RecoveryBlock {
        exponent: u32_at(data, p + 64),
        data: None,
        file_path: path.to_owned(),
        data_offset: (p + 68) as u64,
        data_length: block_size,
    }
}

/// Read the ID of the recovery set from the first packet of a file. It is an error if the file is
/// too short for a header or does not begin with the magic.
pub fn get_recovery_set_id(data: &[u8]) -> (r: Result<FileHash>)
    ensures
        r is Ok <==> data@.len() >= 64 && packets::has_magic(data@, 0),
        r matches Ok(id) ==> id@ == packets::packet_set_id(data@, 0),
        data@.len() < 64 ==> (r matches Err(Par2Error::Io(m)) && m@
            == "failed to fill whole buffer"@),
        data@.len() >= 64 && r is Err ==> (r matches Err(Par2Error::RepairFailed(m)) && m@
            == "Invalid PAR2 file"@),
{
    if data.len() < 64 {
        return Err(Par2Error::Io("failed to fill whole buffer".to_owned()));
    }
    if !has_magic(data, 0) {
        return Err(Par2Error::RepairFailed("Invalid PAR2 file".to_owned()));
    }
    Ok(id_at(data, 32))
}

/// The recovery blocks of the packets of a volume from `p` on. Where no packet starts, the search
/// goes on with the next byte.
pub open spec fn volume_blocks(
    data: Seq<u8>,
    p: int,
    block_size: u64,
    path: Seq<char>,
) -> Seq<RecoveryView>
    decreases data.len() + 4 - p,
{
    if p + 64 > data.len() {
        seq![]
    } else if !packets::is_packet(data, p) {
        volume_blocks(data, p + 1, block_size, path)
    } else {
        let rest = volume_blocks(data, packets::after_packet(data, p), block_size, path);
        if packet_type(packets::packet_kind(data, p)) == PacketType::RecoverySlice
            && packets::packet_length(data, p) >= 68 {
            seq![recovery_at(data, p, block_size, path)] + rest
        } else {
            rest
        }
    }
}

/// Find the recovery blocks of a volume.
pub fn parse_volume_file(data: &[u8], block_size: u64, path: &str) -> (r: Result<
    Vec<RecoveryBlock>,
>)
    ensures
        r is Ok <==> block_size != 0 && block_size % 4 == 0 && block_size <= usize::MAX,
        r matches Ok(v) ==> recovery_views(v@) == volume_blocks(data@, 0, block_size, path@),
        r matches Err(e) ==> e matches Par2Error::InvalidFormat(m) && m@ == (if block_size == 0 {
            "Invalid PAR2 volume: block size missing or zero"@
        } else if block_size % 4 != 0 {
            "Invalid PAR2 volume: block size not aligned"@
        } else {
            "Invalid PAR2 volume: block size exceeds platform limits"@
        }),
{
    if block_size == 0 {
        return Err(
            Par2Error::InvalidFormat(
                "Invalid PAR2 volume: block size missing or zero".to_owned(),
            ),
        );
    }
    if block_size % 4 != 0 {
        return Err(
            Par2Error::InvalidFormat("Invalid PAR2 volume: block size not aligned".to_owned()),
        );
    }
    if block_size > usize::MAX as u64 {
        return Err(
            Par2Error::InvalidFormat(
                "Invalid PAR2 volume: block size exceeds platform limits".to_owned(),
            ),
        );
    }
    let total: usize = data.len();
    let mut blocks: Vec<RecoveryBlock> = Vec::new();
    let mut p: usize = 0;
    while p < total && total - p >= 64
        invariant
            total == data@.len(),
            volume_blocks(data@, 0, block_size, path@) == recovery_views(blocks@) + volume_blocks(
                data@,
                p as int,
                block_size,
                path@,
            ),
        decreases total - p,
    {
        let ghost before = recovery_views(blocks@);
        let ghost here = volume_blocks(data@, p as int, block_size, path@);
        if !has_magic(data, p) {
            p = p + 1;
            continue;
        }
        let length: u64 = u64_at(data, p + 8);
        if length < 64 || length > (total - p) as u64 {
            p = p + 1;
            continue;
        }
        let kind = id_at(data, p + 48);
        let ghost rest = volume_blocks(
            data@,
            packets::after_packet(data@, p as int),
            block_size,
            path@,
        );
        if PacketType::from_bytes(&kind) == PacketType::RecoverySlice && length >= 68 {
            blocks.push(parse_recovery(data, p, block_size, path));
            proof {
                let block = recovery_at(data@, p as int, block_size, path@);
                assert(here == seq![block] + rest);
                assert(recovery_views(blocks@) =~= before + seq![block]);
                assert(before + (seq![block] + rest) =~= (before + seq![block]) + rest);
            }
        }
        let step: usize = length as usize;
        let pad: usize = if step % 4 != 0 {
            4 - step % 4
        } else {
            0
        };
        if pad > total - p - step {
            proof {
                assert(packets::after_packet(data@, p as int) == p + step + pad);
                assert(rest =~= seq![]);
            }
            p = total;
        } else {
            p = p + step + pad;
        }
    }
    proof {
        let tail = volume_blocks(data@, p as int, block_size, path@);
        assert(tail =~= seq![]);
        assert(recovery_views(blocks@) + tail =~= recovery_views(blocks@));
    }
    Ok(blocks)
}

/// A part of a recovery block: of one in memory, the bytes from the offset on, as far as there are any;
/// of one in a file, those behind its own offset. It cannot be read if the file ends before.
pub proof fn law_parts_of_recovery_blocks(block: RecoveryBlock, file: Seq<u8>, offset: int, size: int)
    requires
        0 <= offset,
        0 <= size,
    ensures
        block.data matches Some(v) ==> block.chunk(file, offset, size) == Some(
            if offset >= v@.len() {
                Seq::empty()
            } else if offset + size >= v@.len() {
                v@.skip(offset)
            } else {
                v@.subrange(offset, offset + size)
            },
        ),
        block.data is None && offset + size <= block.data_length && size > 0 ==> {
            let start = block.data_offset + offset;
            &&& block.chunk(file, offset, size) is Some <==> start + size <= file.len()
            &&& start + size <= file.len() ==> block.chunk(file, offset, size) == Some(
                file.subrange(start, start + size),
            )
        },
{
    if let Some(v) = block.data {
        let got = piece(v@, offset, size);
        if offset >= v@.len() {
            assert(got =~= Seq::empty());
        } else if offset + size >= v@.len() {
            assert(got =~= v@.skip(offset));
        }
    }
}

} // verus!
