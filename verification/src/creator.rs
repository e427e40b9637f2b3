//! Creating PAR2 files: choosing the block size, counting blocks, encoding, and writing volumes.

use vstd::prelude::*;
use vstd::string::*;

use crate::blocks;
use crate::error::{Par2Error, Result};
use crate::galois::bulk;
use crate::galois::field;
use crate::galois::sums;
use crate::hash;
use crate::hash::{compute_md5, compute_md5_crc32};
use crate::loader::StoredFile;
use crate::ordering;
use crate::packets;
use crate::packets::FileHash;
use crate::parser;
use crate::parser::{
    ChecksumView, FileInfo, FileView, RecoveryBlock, RecoveryView, SliceChecksum,
};
use crate::paths;
use crate::reed_solomon;
use crate::reed_solomon::Par2ReedSolomon;
use crate::solver;
use crate::streaming_encoder::StreamingEncoder;
use crate::tables::IdTable;
use crate::text;
use crate::volumes;
use crate::volumes::{VolumeInfo, VolumeScheme};
use crate::writer;

verus! {

/// The least block size.
pub const MIN_BLOCK_SIZE: u64 = 2048;

/// The greatest block size, unless there would be too many blocks.
pub const MAX_BLOCK_SIZE: u64 = 4194304;

/// The number of blocks to aim at.
pub const TARGET_BLOCKS: u64 = 2000;

/// The greatest number of blocks: the number of nonzero elements of the field.
pub const MAX_BLOCKS: u64 = 65535;

/// The greater of two numbers.
pub open spec fn greatest(a: int, b: int) -> int {
    if a >= b {
        a
    } else {
        b
    }
}

/// The least block size with which the blocks of `total_size` bytes can be numbered.
pub open spec fn least_block_size(total_size: int) -> int {
    packets::aligned(
        greatest(blocks::block_count(total_size, MAX_BLOCKS as int), MIN_BLOCK_SIZE as int),
    )
}

/// The block size for `total_size` bytes: such that there are about 2000 blocks, but not below 2048
/// or above 4 MiB, and always a multiple of 4. It is greater if there would be too many blocks.
pub open spec fn optimal_block_size(total_size: int) -> int {
    let least = least_block_size(total_size);
    if total_size == 0 {
        MIN_BLOCK_SIZE as int
    } else if least > MAX_BLOCK_SIZE {
        least
    } else {
        greatest(
            parser::least(
                greatest(packets::aligned(total_size / TARGET_BLOCKS as int), MIN_BLOCK_SIZE as int),
                MAX_BLOCK_SIZE as int,
            ),
            least,
        )
    }
}

/// The block size is a multiple of 4, at least 2048, and so great that the field has room for the
/// blocks. It is at most 4 MiB as long as the field has room for that.
pub proof fn law_block_size(total_size: int)
    requires
        total_size >= 0,
    ensures
        optimal_block_size(total_size) % 4 == 0,
        optimal_block_size(total_size) >= MIN_BLOCK_SIZE,
        blocks::block_count(total_size, optimal_block_size(total_size)) <= MAX_BLOCKS,
        total_size <= MAX_BLOCKS * MAX_BLOCK_SIZE ==> optimal_block_size(total_size)
            <= MAX_BLOCK_SIZE,
{
    let size = optimal_block_size(total_size);
    let per_block = blocks::block_count(total_size, MAX_BLOCKS as int);
    blocks::law_block_count(total_size, MAX_BLOCKS as int, per_block);
    assert(total_size > 0 ==> size >= per_block);
    assert(total_size <= MAX_BLOCKS * size) by (nonlinear_arith)
        requires
            per_block * MAX_BLOCKS >= total_size,
            size >= per_block || total_size == 0,
            size >= 2048,
    ;
    blocks::law_block_count(total_size, size, MAX_BLOCKS as int);
    if total_size <= MAX_BLOCKS * MAX_BLOCK_SIZE {
        blocks::law_block_count(total_size, MAX_BLOCKS as int, MAX_BLOCK_SIZE as int);
        assert(per_block <= MAX_BLOCK_SIZE);
    }
}

/// Choose the block size for a number of bytes.
pub fn calculate_block_size(total_size: u64) -> (r: u64)
    ensures
        r == optimal_block_size(total_size as int),
{
    if total_size == 0 {
        return MIN_BLOCK_SIZE;
    }
    let target: u64 = round_up_to_4(total_size / TARGET_BLOCKS);
    let per_block: u64 = blocks::count_blocks(total_size, MAX_BLOCKS);
    proof {
        blocks::law_block_count(total_size as int, MAX_BLOCKS as int, 281479271743489);
    }
    let least: u64 = round_up_to_4(
        if per_block > MIN_BLOCK_SIZE {
            per_block
        } else {
            MIN_BLOCK_SIZE
        },
    );
    if least > MAX_BLOCK_SIZE {
        return least;
    }
    let clamped: u64 = if target < MIN_BLOCK_SIZE {
        MIN_BLOCK_SIZE
    } else if target > MAX_BLOCK_SIZE {
        MAX_BLOCK_SIZE
    } else {
        target
    };
    if clamped > least {
        clamped
    } else {
        least
    }
}

fn round_up_to_4(n: u64) -> (r: u64)
    requires
        n <= u64::MAX - 4,
    ensures
        r == packets::aligned(n as int),
{
    if n % 4 != 0 {
        (n / 4 + 1) * 4
    } else {
        n
    }
}

/// What is wrong with a set of files to protect.
pub enum PlanError {
    /// The block size does not fit in memory.
    BlockSize,
    /// A file has too many blocks.
    FileBlocks(int),
    /// The blocks of all files cannot be counted.
    TotalBlocks,
    /// There are too many data blocks.
    DataBlocks(nat),
    /// The size of all data blocks cannot be told.
    DataSize,
    /// The recovery blocks cannot be counted.
    RecoveryCount,
    /// There are too many recovery blocks.
    RecoveryBlocks(nat),
    /// There are too many blocks in all.
    AllBlocks,
}

/// The message for an error.
pub open spec fn plan_message(e: PlanError, names: Seq<Seq<char>>) -> Seq<char> {
    match e {
        PlanError::BlockSize => "Block size exceeds platform limits"@,
        PlanError::FileBlocks(i) => "File requires too many blocks: "@ + names[i],
        PlanError::TotalBlocks => "Too many total blocks"@,
        PlanError::DataBlocks(n) => "Total data blocks ("@ + text::decimal_digits(n)
            + ") exceed GF(2^16) limit (65535)"@,
        PlanError::DataSize => "Data size overflow"@,
        PlanError::RecoveryCount => "Too many recovery blocks"@,
        PlanError::RecoveryBlocks(n) => "Recovery blocks ("@ + text::decimal_digits(n)
            + ") exceed GF(2^16) limit (65535)"@,
        PlanError::AllBlocks => "Total blocks (data + recovery) exceed GF(2^16) limit (65535)"@,
    }
}

/// The number of blocks of files of the given lengths.
pub open spec fn total_blocks(lengths: Seq<u64>, block_size: int) -> int
    decreases lengths.len(),
{
    if lengths.len() == 0 {
        0
    } else {
        total_blocks(lengths.drop_last(), block_size) + blocks::block_count(
            lengths.last() as int,
            block_size,
        )
    }
}

/// The number of bytes of files of the given lengths.
pub open spec fn total_length(lengths: Seq<u64>) -> int
    decreases lengths.len(),
{
    if lengths.len() == 0 {
        0
    } else {
        total_length(lengths.drop_last()) + lengths.last()
    }
}

/// The first thing that is wrong with the number of data blocks, when the files before `from` have
/// been counted.
pub open spec fn counting_error(lengths: Seq<u64>, block_size: int, from: int) -> Option<PlanError>
    decreases lengths.len() - from,
{
    if from >= lengths.len() {
        let total = total_blocks(lengths, block_size);
        if total > MAX_BLOCKS {
            Some(PlanError::DataBlocks(total as nat))
        } else {
            None
        }
    } else if blocks::block_count(lengths[from] as int, block_size) > usize::MAX {
        Some(PlanError::FileBlocks(from))
    } else if total_blocks(lengths.take(from + 1), block_size) > usize::MAX {
        Some(PlanError::TotalBlocks)
    } else {
        counting_error(lengths, block_size, from + 1)
    }
}

/// The first thing that is wrong with the number of recovery blocks.
pub open spec fn recovery_error(data_blocks: int, recovery_bytes: int, block_size: int) -> Option<
    PlanError,
> {
    let count = blocks::block_count(recovery_bytes, block_size);
    if count > usize::MAX {
        Some(PlanError::RecoveryCount)
    } else if count > MAX_BLOCKS {
        Some(PlanError::RecoveryBlocks(count as nat))
    } else if data_blocks + count > MAX_BLOCKS {
        Some(PlanError::AllBlocks)
    } else {
        None
    }
}

/// The first thing that is wrong with the data blocks of files.
pub open spec fn data_error(lengths: Seq<u64>, block_size: int) -> Option<PlanError> {
    if block_size > usize::MAX {
        Some(PlanError::BlockSize)
    } else {
        match counting_error(lengths, block_size, 0) {
            Some(e) => Some(e),
            None => if total_blocks(lengths, block_size) * block_size > u64::MAX {
                Some(PlanError::DataSize)
            } else {
                None
            },
        }
    }
}

/// The first thing that is wrong with a set of files to protect.
pub open spec fn plan_error(lengths: Seq<u64>, block_size: int, recovery_bytes: int) -> Option<
    PlanError,
> {
    match data_error(lengths, block_size) {
        Some(e) => Some(e),
        None => recovery_error(total_blocks(lengths, block_size), recovery_bytes, block_size),
    }
}

/// The lengths in file descriptions.
pub open spec fn lengths_of(files: Seq<FileView>) -> Seq<u64> {
    Seq::new(files.len(), |i: int| files[i].length)
}

/// The names in file descriptions.
pub open spec fn names_of(files: Seq<FileView>) -> Seq<Seq<char>> {
    Seq::new(files.len(), |i: int| files[i].name)
}

pub(crate) fn invalid<T>(message: &str) -> (r: Result<T>)
    ensures
        r matches Err(Par2Error::InvalidFormat(m)) && m@ == message@,
{
    Err(Par2Error::InvalidFormat(message.to_owned()))
}

pub(crate) fn invalid_number<T>(before: &str, n: usize, after: &str) -> (r: Result<T>)
    ensures
        r matches Err(Par2Error::InvalidFormat(m)) && m@ == before@ + text::decimal_digits(
            n as nat,
        ) + after@,
{
    let mut message: String = before.to_owned();
    message.append(text::decimal(n as u64).as_str());
    message.append(after);
    Err(Par2Error::InvalidFormat(message))
}

/// Count the data blocks of files, and check that the field has room for them.
pub fn count_file_blocks(files: &[FileInfo], block_size: u64) -> (r: Result<usize>)
    requires
        block_size > 0,
    ensures
        ({
            let lengths = lengths_of(parser::file_views(files@));
            match counting_error(lengths, block_size as int, 0) {
                Some(e) => r matches Err(Par2Error::InvalidFormat(m)) && m@ == plan_message(
                    e,
                    names_of(parser::file_views(files@)),
                ),
                None => r matches Ok(n) && n == total_blocks(lengths, block_size as int) && n
                    <= MAX_BLOCKS,
            }
        }),
{
    let ghost lengths = lengths_of(parser::file_views(files@));
    let ghost names = names_of(parser::file_views(files@));
    let n: usize = files.len();
    let mut total: usize = 0;
    assert(lengths.take(0) =~= seq![]);
    for i in 0..n
        invariant
            block_size > 0,
            n == files@.len(),
            lengths == lengths_of(parser::file_views(files@)),
            names == names_of(parser::file_views(files@)),
            total == total_blocks(lengths.take(i as int), block_size as int),
            counting_error(lengths, block_size as int, 0) == counting_error(
                lengths,
                block_size as int,
                i as int,
            ),
    {
        let count: u64 = blocks::count_blocks(files[i].length, block_size);
        proof {
            assert(lengths[i as int] == files@[i as int].length);
            assert(names[i as int] == files@[i as int].name@);
            assert(lengths.take(i + 1).drop_last() =~= lengths.take(i as int));
            assert(lengths.take(i + 1).last() == lengths[i as int]);
        }
        if count > usize::MAX as u64 {
            let mut message: String = "File requires too many blocks: ".to_owned();
            message.append(files[i].name.as_str());
            return Err(Par2Error::InvalidFormat(message));
        }
        let blocks: usize = count as usize;
        if blocks > usize::MAX - total {
            return invalid("Too many total blocks");
        }
        total = total + blocks;
    }
    assert(lengths.take(n as int) =~= lengths);
    if total > 65535 {
        return invalid_number("Total data blocks (", total, ") exceed GF(2^16) limit (65535)");
    }
    Ok(total)
}

/// Count the data blocks of files to protect, and check that they can be numbered.
pub fn count_data_blocks(files: &[FileInfo], block_size: u64) -> (r: Result<usize>)
    requires
        block_size > 0,
    ensures
        ({
            let lengths = lengths_of(parser::file_views(files@));
            match data_error(lengths, block_size as int) {
                Some(e) => r matches Err(Par2Error::InvalidFormat(m)) && m@ == plan_message(
                    e,
                    names_of(parser::file_views(files@)),
                ),
                None => r matches Ok(n) && n == total_blocks(lengths, block_size as int),
            }
        }),
{
    if block_size > usize::MAX as u64 {
        return invalid("Block size exceeds platform limits");
    }
    let total: usize = match count_file_blocks(files, block_size) {
        Ok(total) => total,
        Err(e) => {
            return Err(e);
        },
    };
    proof {
        assert(total * block_size <= u128::MAX) by (nonlinear_arith)
            requires
                total <= 65535,
                block_size <= u64::MAX,
        ;
    }
    let bytes: u128 = total as u128 * block_size as u128;
    if bytes > u64::MAX as u128 {
        return invalid("Data size overflow");
    }
    Ok(total)
}

/// Count the recovery blocks that hold a number of bytes, and check that they can be numbered.
pub fn count_recovery_blocks(data_blocks: usize, recovery_bytes: u64, block_size: u64) -> (r:
    Result<usize>)
    requires
        block_size > 0,
        data_blocks <= MAX_BLOCKS,
    ensures
        match recovery_error(data_blocks as int, recovery_bytes as int, block_size as int) {
            Some(e) => r matches Err(Par2Error::InvalidFormat(m)) && m@ == plan_message(e, seq![]),
            None => r matches Ok(n) && n == blocks::block_count(
                recovery_bytes as int,
                block_size as int,
            ),
        },
{
    let count: u64 = blocks::count_blocks(recovery_bytes, block_size);
    if count > usize::MAX as u64 {
        return invalid("Too many recovery blocks");
    }
    let recovery_blocks: usize = count as usize;
    if recovery_blocks > 65535 {
        return invalid_number(
            "Recovery blocks (",
            recovery_blocks,
            ") exceed GF(2^16) limit (65535)",
        );
    }
    if data_blocks + recovery_blocks > 65535 {
        return invalid("Total blocks (data + recovery) exceed GF(2^16) limit (65535)");
    }
    Ok(recovery_blocks)
}

/// The description of a file: its digest, that of its first 16 KiB, and its ID.
pub open spec fn described(name: Seq<char>, data: Seq<u8>) -> FileView {
    let hash_16k = hash::md5(parser::piece(data, 0, 16384));
    FileView {
        file_id: hash::md5(hash_16k + packets::le64(data.len() as u64) + writer::utf8(name)),
        hash: hash::md5(data),
        hash_16k,
        length: data.len() as u64,
        name,
    }
}

/// Describe a file.
pub fn describe_file(name: &str, data: &[u8]) -> (r: FileInfo)
    ensures
        r@ == described(name@, data@),
{
    let n: usize = data.len();
    let head: usize = if n <= 16384 {
        n
    } else {
        16384
    };
    let hash_16k = compute_md5(&data[0..head]);
    assert(data@.subrange(0, head as int) =~= parser::piece(data@, 0, 16384));
    let length: u64 = n as u64;
    FileInfo {
        file_id: writer::compute_file_id(&hash_16k, length, name),
        hash: compute_md5(data),
        hash_16k,
        length,
        name: name.to_owned(),
    }
}

/// The checksums of a block.
pub open spec fn checksum_of(block: Seq<u8>) -> ChecksumView {
    ChecksumView { md5: hash::md5(block), crc32: hash::crc32_checksum(block) }
}

/// The checksums of the blocks of a file.
pub open spec fn file_checksums(data: Seq<u8>, block_size: nat) -> Seq<ChecksumView> {
    Seq::new(
        blocks::block_count(data.len() as int, block_size as int) as nat,
        |i: int| checksum_of(blocks::block_at(data, block_size, i)),
    )
}

/// The elements of blocks.
pub open spec fn words_of_blocks(blocks: Seq<Seq<u8>>) -> Seq<Seq<u16>> {
    Seq::new(blocks.len(), |i: int| bulk::words(blocks[i]))
}

/// The recovery data of exponent `e` for data blocks of a size.
pub open spec fn recovery_data(blocks: Seq<Seq<u8>>, block_size: nat, e: nat) -> Seq<u8> {
    bulk::word_bytes(
        reed_solomon::recovery_words(
            reed_solomon::par2_constants(blocks.len()),
            words_of_blocks(blocks),
            e,
            block_size / 2,
        ),
    )
}

/// The first `count` recovery blocks of data blocks.
pub open spec fn recovery_set(blocks: Seq<Seq<u8>>, block_size: nat, count: nat) -> Seq<
    (u32, Seq<u8>),
> {
    Seq::new(count, |e: int| (e as u32, recovery_data(blocks, block_size, e as nat)))
}

/// A file to protect.
pub struct InputFile {
    pub path: String,
    /// Whether there is such a file.
    pub exists: bool,
    /// The contents of the file.
    pub data: Vec<u8>,
}

/// The contents of files.
pub open spec fn contents(files: Seq<InputFile>) -> Seq<Seq<u8>> {
    Seq::new(files.len(), |i: int| files[i].data@)
}

/// The encoder has taken the first `done` of the data blocks `all`.
spec fn has_taken(encoder: StreamingEncoder, all: Seq<Seq<u8>>, done: nat) -> bool {
    &&& encoder.ready()
    &&& encoder.data_batch_size > 0
    &&& encoder.data_blocks == all.len()
    &&& forall|e: int, s: int|
        0 <= e < encoder.recovery_data@.len() && 0 <= s < encoder.block_size / 2
            ==> #[trigger] encoder.total(e, s) == sums::xor_sum(
            reed_solomon::symbol_terms(
                reed_solomon::par2_constants(all.len()),
                words_of_blocks(all),
                e as nat,
                s,
            ),
            done,
        )
}

/// Hand data block `done` to an encoder, and take its checksums.
fn encode_block(encoder: &mut StreamingEncoder, block: &Vec<u8>, done: usize, Ghost(all): Ghost<
    Seq<Seq<u8>>,
>) -> (r: SliceChecksum)
    requires
        done < all.len(),
        block@ == all[done as int],
        has_taken(*old(encoder), all, done as nat),
        block@.len() == old(encoder).block_size,
        block@.len() % 2 == 0,
    ensures
        r@ == checksum_of(block@),
        has_taken(*final(encoder), all, done as nat + 1),
        final(encoder).block_size == old(encoder).block_size,
        final(encoder).recovery_data@.len() == old(encoder).recovery_data@.len(),
{
    let sums = compute_md5_crc32(block.as_slice());
    let words = reed_solomon::words_of(block);
    let ghost before = *encoder;
    encoder.process_block(done, words.as_slice());
    proof {
        assert forall|e: int, s: int|
            0 <= e < encoder.recovery_data@.len() && 0 <= s < encoder.block_size
                / 2 implies #[trigger] encoder.total(e, s) == sums::xor_sum(
            reed_solomon::symbol_terms(
                reed_solomon::par2_constants(all.len()),
                words_of_blocks(all),
                e as nat,
                s,
            ),
            done as nat + 1,
        ) by {
            let terms = reed_solomon::symbol_terms(
                reed_solomon::par2_constants(all.len()),
                words_of_blocks(all),
                e as nat,
                s,
            );
            assert(before.total(e, s) == sums::xor_sum(terms, done as nat));
            assert(words_of_blocks(all)[done as int] == words@);
            assert(terms(done as int) == field::product(
                words@[s],
                field::power(
                    reed_solomon::par2_constants(all.len())[done as int],
                    e as nat,
                ),
            ));
        }
    }
    SliceChecksum { md5: sums.0, crc32: sums.1 }
}

/// Hand the data blocks of a file, from `start` on, to an encoder, and take their checksums.
fn encode_file(
    encoder: &mut StreamingEncoder,
    data: &Vec<u8>,
    block_size: usize,
    count: usize,
    start: usize,
    Ghost(all): Ghost<Seq<Seq<u8>>>,
) -> (r: Vec<SliceChecksum>)
    requires
        block_size > 0,
        block_size % 4 == 0,
        count == blocks::block_count(data@.len() as int, block_size as int),
        start + count <= all.len() <= MAX_BLOCKS,
        forall|j: int|
            0 <= j < count ==> #[trigger] all[start + j] == blocks::block_at(
                data@,
                block_size as nat,
                j,
            ),
        has_taken(*old(encoder), all, start as nat),
        old(encoder).block_size == block_size,
    ensures
        parser::checksum_views(r@) == file_checksums(data@, block_size as nat),
        has_taken(*final(encoder), all, (start + count) as nat),
        final(encoder).block_size == block_size,
        final(encoder).recovery_data@.len() == old(encoder).recovery_data@.len(),
{
    let mut sums: Vec<SliceChecksum> = Vec::with_capacity(count);
    for j in 0..count
        invariant
            block_size > 0,
            block_size % 4 == 0,
            count == blocks::block_count(data@.len() as int, block_size as int),
            start + count <= all.len() <= MAX_BLOCKS,
            forall|k: int|
                0 <= k < count ==> #[trigger] all[start + k] == blocks::block_at(
                    data@,
                    block_size as nat,
                    k,
                ),
            has_taken(*encoder, all, (start + j) as nat),
            encoder.block_size == block_size,
            encoder.recovery_data@.len() == old(encoder).recovery_data@.len(),
            sums@.len() == j,
            forall|k: int|
                0 <= k < j ==> (#[trigger] sums@[k])@ == checksum_of(
                    blocks::block_at(data@, block_size as nat, k),
                ),
    {
        let block = blocks::take_block(data.as_slice(), block_size, j);
        assert(all[start + j] == block@);
        sums.push(encode_block(encoder, &block, start + j, Ghost(all)));
    }
    assert(parser::checksum_views(sums@) =~= file_checksums(data@, block_size as nat));
    sums
}

/// Compute the checksums of the blocks of files, and their recovery blocks. The data blocks are
/// numbered file by file, the files in the given order.
pub fn encode_files(
    files: &[InputFile],
    order: &Vec<usize>,
    block_size: usize,
    data_blocks: usize,
    recovery_blocks: usize,
    num_cpus: usize,
) -> (r: Result<(Vec<Vec<SliceChecksum>>, Vec<(u32, Vec<u8>)>)>)
    requires
        block_size > 0,
        block_size % 4 == 0,
        num_cpus > 0,
        sums::is_permutation(solver::indices(order@), files@.len()),
        data_blocks == blocks::all_blocks(
            ordering::arranged(contents(files@), solver::indices(order@)),
            block_size as nat,
        ).len(),
        data_blocks <= MAX_BLOCKS,
    ensures
        r matches Ok(v) && v.0@.len() == files@.len() && (forall|i: int|
            0 <= i < files@.len() ==> parser::checksum_views((#[trigger] v.0@[i])@)
                == file_checksums(files@[i].data@, block_size as nat))
            && volumes::block_views(v.1@) == recovery_set(
            blocks::all_blocks(
                ordering::arranged(contents(files@), solver::indices(order@)),
                block_size as nat,
            ),
            block_size as nat,
            recovery_blocks as nat,
        ),
{
    let ghost places = solver::indices(order@);
    let ghost datas = ordering::arranged(contents(files@), places);
    let ghost all = blocks::all_blocks(datas, block_size as nat);
    let chunk_size: usize = if block_size < 100000 {
        block_size
    } else {
        100000
    };
    let rs = Par2ReedSolomon::new(data_blocks, recovery_blocks);
    let mut encoder = match rs.create_streaming_encoder(
        recovery_blocks,
        block_size,
        chunk_size,
        num_cpus,
    ) {
        Ok(encoder) => encoder,
        Err(e) => {
            let mut message: String = "Failed to create encoder: ".to_owned();
            message.append(e.as_str());
            return Err(Par2Error::RepairFailed(message));
        },
    };
    let n: usize = files.len();
    let mut checksums: Vec<Vec<SliceChecksum>> = Vec::with_capacity(n);
    for i in 0..n
        invariant
            checksums@.len() == i,
    {
        checksums.push(Vec::new());
    }
    let mut done: usize = 0;
    assert(datas.take(0) =~= seq![]);
    for i in 0..n
        invariant
            block_size > 0,
            block_size % 4 == 0,
            n == files@.len(),
            n == order@.len(),
            places == solver::indices(order@),
            sums::is_permutation(places, n as nat),
            datas == ordering::arranged(contents(files@), places),
            all == blocks::all_blocks(datas, block_size as nat),
            data_blocks == all.len(),
            data_blocks <= MAX_BLOCKS,
            done == blocks::first_block(datas, block_size as nat, i as int),
            has_taken(encoder, all, done as nat),
            encoder.block_size == block_size,
            encoder.recovery_data@.len() == recovery_blocks,
            checksums@.len() == n,
            forall|k: int|
                0 <= k < i ==> parser::checksum_views(checksums@[#[trigger] places[k]]@)
                    == file_checksums(files@[places[k]].data@, block_size as nat),
    {
        let at: usize = order[i];
        assert(places[i as int] == at);
        let data: &Vec<u8> = &files[at].data;
        let length: usize = data.len();
        let count: usize = blocks::count_blocks(length as u64, block_size as u64) as usize;
        proof {
            assert(datas[i as int] == data@);
            assert forall|j: int| 0 <= j < count implies done + j < all.len()
                && #[trigger] all[done + j] == blocks::block_at(data@, block_size as nat, j) by {
                blocks::law_block_numbers(datas, block_size as nat, i as int, j);
            }
            blocks::lemma_first_block(datas, block_size as nat, i as int);
            blocks::lemma_first_block_monotone(datas, block_size as nat, i + 1, n as int);
            assert(datas.take(n as int) =~= datas);
        }
        let sums = encode_file(&mut encoder, data, block_size, count, done, Ghost(all));
        done = done + count;
        let ghost before = checksums@;
        checksums.set(at, sums);
        proof {
            assert forall|k: int| 0 <= k < i + 1 implies parser::checksum_views(
                checksums@[#[trigger] places[k]]@,
            ) == file_checksums(files@[places[k]].data@, block_size as nat) by {
                if k < i {
                    assert(places[k] != places[i as int]);
                    assert(checksums@[places[k]] == before[places[k]]);
                }
            }
        }
    }
    proof {
        assert(datas.take(n as int) =~= datas);
        assert(done == all.len());
        assert forall|i: int| 0 <= i < n implies parser::checksum_views((#[trigger] checksums@[i])@)
            == file_checksums(files@[i].data@, block_size as nat) by {
            sums::lemma_permutation_onto(places, n as nat, i);
            let k = choose|k: int| 0 <= k < n && #[trigger] places[k] == i;
            assert(places[k] == i);
        }
    }
    let ghost last = encoder;
    let recovery = encoder.finalize();
    proof {
        let want = recovery_set(all, block_size as nat, recovery_blocks as nat);
        let got = volumes::block_views(recovery@);
        assert forall|e: int| 0 <= e < recovery_blocks implies #[trigger] got[e] == want[e] by {
            let constants = reed_solomon::par2_constants(all.len());
            let words = words_of_blocks(all);
            let symbols = (block_size / 2) as nat;
            assert(Seq::new(symbols, |s: int| last.total(e, s)) =~= reed_solomon::recovery_words(
                constants,
                words,
                e as nat,
                symbols,
            )) by {
                assert forall|s: int| 0 <= s < symbols implies last.total(e, s)
                    == reed_solomon::recovery_symbol(constants, words, e as nat, s) by {
                    let f = reed_solomon::symbol_terms(constants, words, e as nat, s);
                    assert(last.total(e, s) == sums::xor_sum(f, all.len()));
                    let g = |k: int|
                        field::product(words[k][s], field::power(constants[k], e as nat));
                    sums::lemma_sum_equal(f, g, all.len());
                }
            }
            assert(recovery@[e].0 == e as u32);
        }
        assert(got =~= want);
    }
    Ok((checksums, recovery))
}

/// The file descriptions of a set.
pub open spec fn description_packets(set_id: Seq<u8>, files: Seq<FileView>) -> Seq<u8>
    decreases files.len(),
{
    if files.len() == 0 {
        seq![]
    } else {
        description_packets(set_id, files.drop_last()) + packets::packet(
            packets::FILE_DESC@,
            set_id,
            writer::file_desc_body(files.last()),
        )
    }
}

/// The checksums of the first `n` files, by their IDs. Of files with the same ID the last one
/// counts.
pub open spec fn checksum_table(
    files: Seq<FileView>,
    checksums: Seq<Seq<ChecksumView>>,
    n: nat,
) -> Map<Seq<u8>, Seq<ChecksumView>>
    decreases n,
{
    if n == 0 {
        Map::empty()
    } else {
        checksum_table(files, checksums, (n - 1) as nat).insert(
            files[n - 1].file_id,
            checksums[n - 1],
        )
    }
}

/// The IFSC packets of a set.
pub open spec fn checksum_packets(
    set_id: Seq<u8>,
    files: Seq<FileView>,
    table: Map<Seq<u8>, Seq<ChecksumView>>,
) -> Seq<u8>
    decreases files.len(),
{
    if files.len() == 0 {
        seq![]
    } else {
        checksum_packets(set_id, files.drop_last(), table) + packets::packet(
            packets::IFSC@,
            set_id,
            writer::ifsc_body(files.last().file_id, table[files.last().file_id]),
        )
    }
}

/// The recovery packets of a volume.
pub open spec fn recovery_packets(set_id: Seq<u8>, blocks: Seq<(u32, Seq<u8>)>) -> Seq<u8>
    decreases blocks.len(),
{
    if blocks.len() == 0 {
        seq![]
    } else {
        recovery_packets(set_id, blocks.drop_last()) + packets::packet(
            packets::RECV_SLICE@,
            set_id,
            writer::recovery_body(blocks.last().0, blocks.last().1),
        )
    }
}

/// What the packets of a set say.
pub struct SetView {
    pub block_size: u64,
    pub files: Seq<FileView>,
    pub checksums: Seq<Seq<ChecksumView>>,
}

impl SetView {
    /// The IDs of the files.
    pub open spec fn ids(self) -> Seq<Seq<u8>> {
        Seq::new(self.files.len(), |i: int| self.files[i].file_id)
    }

    /// The body of the main packet.
    pub open spec fn main_packet(self) -> Seq<u8> {
        writer::main_body(self.block_size, writer::sorted_ids(self.ids()))
    }

    /// The ID of the set.
    pub open spec fn set_id(self) -> Seq<u8> {
        hash::md5(self.main_packet())
    }

    /// The checksums by file IDs.
    pub open spec fn table(self) -> Map<Seq<u8>, Seq<ChecksumView>> {
        checksum_table(self.files, self.checksums, self.files.len())
    }
}

/// The name in the creator packet.
pub open spec fn creator_name() -> Seq<char> {
    "par2-rs v0.1.0 https://github.com/zephleggett/par2-rs"@
}

/// A volume of a set: the creator packet, the main packet, the file descriptions, the checksums and
/// the recovery blocks.
pub open spec fn volume_bytes(set: SetView, blocks: Seq<(u32, Seq<u8>)>) -> Seq<u8> {
    packets::packet(packets::CREATOR@, set.set_id(), writer::utf8(creator_name()))
        + packets::packet(packets::MAIN@, set.set_id(), set.main_packet()) + description_packets(
        set.set_id(),
        set.files,
    ) + checksum_packets(set.set_id(), set.files, set.table()) + recovery_packets(
        set.set_id(),
        blocks,
    )
}

/// The exponents and data of recovery blocks in memory.
pub open spec fn block_data(blocks: Seq<RecoveryView>) -> Seq<(u32, Seq<u8>)> {
    Seq::new(blocks.len(), |i: int| (blocks[i].exponent, blocks[i].data->Some_0))
}

fn write_descriptions(out: &mut Vec<u8>, set_id: &FileHash, files: &[FileInfo]) -> (r: Result<()>)
    ensures
        r is Ok,
        final(out)@ == old(out)@ + description_packets(set_id@, parser::file_views(files@)),
{
    let n: usize = files.len();
    let ghost views = parser::file_views(files@);
    assert(views.take(0) =~= seq![]);
    assert(out@ + description_packets(set_id@, views.take(0)) =~= out@);
    for i in 0..n
        invariant
            n == files@.len(),
            views == parser::file_views(files@),
            out@ == old(out)@ + description_packets(set_id@, views.take(i as int)),
    {
        match writer::write_file_desc_packet(out, set_id, &files[i]) {
            Ok(_) => {},
            Err(e) => {
                return Err(e);
            },
        }
        proof {
            assert(views.take(i + 1).drop_last() =~= views.take(i as int));
            assert(views.take(i + 1).last() == files@[i as int]@);
            assert(out@ =~= old(out)@ + description_packets(set_id@, views.take(i + 1)));
        }
    }
    assert(views.take(n as int) =~= views);
    Ok(())
}

fn write_checksums(
    out: &mut Vec<u8>,
    set_id: &FileHash,
    files: &[FileInfo],
    table: &IdTable<Vec<SliceChecksum>>,
) -> (r: Result<()>)
    requires
        table.wf(),
        forall|i: int|
            0 <= i < files@.len() ==> table@.dom().contains((#[trigger] files@[i]).file_id@),
    ensures
        r is Ok,
        final(out)@ == old(out)@ + checksum_packets(
            set_id@,
            parser::file_views(files@),
            crate::loader::checksum_map(table@),
        ),
{
    let n: usize = files.len();
    let ghost views = parser::file_views(files@);
    let ghost map = crate::loader::checksum_map(table@);
    assert(views.take(0) =~= seq![]);
    assert(out@ + checksum_packets(set_id@, views.take(0), map) =~= out@);
    for i in 0..n
        invariant
            n == files@.len(),
            table.wf(),
            forall|k: int|
                0 <= k < files@.len() ==> table@.dom().contains((#[trigger] files@[k]).file_id@),
            views == parser::file_views(files@),
            map == crate::loader::checksum_map(table@),
            out@ == old(out)@ + checksum_packets(set_id@, views.take(i as int), map),
    {
        assert(table@.dom().contains(files@[i as int].file_id@));
        if let Some(checksums) = table.get(&files[i].file_id) {
            match writer::write_ifsc_packet(out, set_id, &files[i].file_id, checksums.as_slice()) {
                Ok(_) => {},
                Err(e) => {
                    return Err(e);
                },
            }
        }
        proof {
            assert(views.take(i + 1).drop_last() =~= views.take(i as int));
            assert(views.take(i + 1).last() == files@[i as int]@);
            assert(out@ =~= old(out)@ + checksum_packets(set_id@, views.take(i + 1), map));
        }
    }
    assert(views.take(n as int) =~= views);
    Ok(())
}

fn write_recovery(out: &mut Vec<u8>, set_id: &FileHash, blocks: &[RecoveryBlock]) -> (r: Result<()>)
    requires
        forall|i: int|
            0 <= i < blocks@.len() ==> (#[trigger] blocks@[i]).data is Some && blocks@[i].data_length
                <= usize::MAX,
    ensures
        r is Ok,
        final(out)@ == old(out)@ + recovery_packets(
            set_id@,
            block_data(parser::recovery_views(blocks@)),
        ),
{
    let n: usize = blocks.len();
    let ghost views = block_data(parser::recovery_views(blocks@));
    assert(views.take(0) =~= seq![]);
    assert(out@ + recovery_packets(set_id@, views.take(0)) =~= out@);
    let nothing: Vec<u8> = Vec::new();
    for i in 0..n
        invariant
            n == blocks@.len(),
            forall|k: int|
                0 <= k < blocks@.len() ==> (#[trigger] blocks@[k]).data is Some
                    && blocks@[k].data_length <= usize::MAX,
            views == block_data(parser::recovery_views(blocks@)),
            out@ == old(out)@ + recovery_packets(set_id@, views.take(i as int)),
    {
        match writer::write_recovery_slice_packet(out, set_id, &blocks[i], nothing.as_slice()) {
            Ok(_) => {},
            Err(e) => {
                return Err(e);
            },
        }
        proof {
            assert(views.take(i + 1).drop_last() =~= views.take(i as int));
            assert(views.take(i + 1).last() == views[i as int]);
            assert(out@ =~= old(out)@ + recovery_packets(set_id@, views.take(i + 1)));
        }
    }
    assert(views.take(n as int) =~= views);
    Ok(())
}

/// What the packets of a set say of files with checksums.
pub open spec fn set_view(
    block_size: u64,
    files: Seq<FileInfo>,
    checksums: Seq<Vec<SliceChecksum>>,
) -> SetView {
    SetView {
        block_size,
        files: parser::file_views(files),
        checksums: Seq::new(checksums.len(), |i: int| parser::checksum_views(checksums[i]@)),
    }
}

/// What is written into every volume of a set.
pub struct SetPackets {
    pub set_id: FileHash,
    pub block_size: u64,
    pub file_ids: Vec<FileHash>,
    pub files: Vec<FileInfo>,
    pub checksums: IdTable<Vec<SliceChecksum>>,
}

impl SetPackets {
    /// These are the packets of `set`.
    pub open spec fn is_of(&self, set: SetView) -> bool {
        &&& self.checksums.wf()
        &&& self.set_id@ == set.set_id()
        &&& self.block_size == set.block_size
        &&& parser::id_views(self.file_ids@) == set.ids()
        &&& parser::file_views(self.files@) == set.files
        &&& crate::loader::checksum_map(self.checksums@) == set.table()
    }

    /// Prepare the packets of a set.
    pub fn new(
        block_size: u64,
        files: Vec<FileInfo>,
        checksums: &Vec<Vec<SliceChecksum>>,
    ) -> (r: SetPackets)
        requires
            checksums@.len() == files@.len(),
        ensures
            r.is_of(set_view(block_size, files@, checksums@)),
    {
        let n: usize = files.len();
        let ghost set = set_view(block_size, files@, checksums@);
        let mut ids: Vec<FileHash> = Vec::with_capacity(n);
        let mut table: IdTable<Vec<SliceChecksum>> = IdTable::new();
        assert(crate::loader::checksum_map(table@) =~= checksum_table(
            set.files,
            set.checksums,
            0,
        ));
        for i in 0..n
            invariant
                n == files@.len(),
                checksums@.len() == files@.len(),
                set == set_view(block_size, files@, checksums@),
                ids@.len() == i,
                forall|k: int| 0 <= k < i ==> (#[trigger] ids@[k])@ == set.files[k].file_id,
                table.wf(),
                crate::loader::checksum_map(table@) == checksum_table(
                    set.files,
                    set.checksums,
                    i as nat,
                ),
        {
            let ghost before = table@;
            let copy = copy_checksums(&checksums[i]);
            ids.push(files[i].file_id);
            table.insert(files[i].file_id, copy);
            proof {
                assert(set.files[i as int] == files@[i as int]@);
                assert(set.checksums[i as int] == parser::checksum_views(checksums@[i as int]@));
                assert(crate::loader::checksum_map(table@) =~= crate::loader::checksum_map(
                    before,
                ).insert(files@[i as int].file_id@, set.checksums[i as int]));
            }
        }
        assert(parser::id_views(ids@) =~= set.ids());
        let body = writer::build_main_body(block_size, ids.as_slice());
        let set_id = writer::compute_recovery_set_id(body.as_slice());
        SetPackets { set_id, block_size, file_ids: ids, files, checksums: table }
    }

    /// Write a volume with the given recovery blocks.
    fn write_volume(&self, blocks: &[RecoveryBlock], Ghost(set): Ghost<SetView>) -> (r: Result<
        Vec<u8>,
    >)
        requires
            self.is_of(set),
            forall|i: int|
                0 <= i < blocks@.len() ==> (#[trigger] blocks@[i]).data is Some
                    && blocks@[i].data_length <= usize::MAX,
        ensures
            r matches Ok(bytes) && bytes@ == volume_bytes(
                set,
                block_data(parser::recovery_views(blocks@)),
            ),
    {
        let mut out: Vec<u8> = Vec::new();
        match writer::write_creator_packet(
            &mut out,
            &self.set_id,
            "par2-rs v0.1.0 https://github.com/zephleggett/par2-rs",
        ) {
            Ok(_) => {},
            Err(e) => {
                return Err(e);
            },
        }
        match writer::write_main_packet(
            &mut out,
            &self.set_id,
            self.block_size,
            self.file_ids.as_slice(),
        ) {
            Ok(_) => {},
            Err(e) => {
                return Err(e);
            },
        }
        match write_descriptions(&mut out, &self.set_id, self.files.as_slice()) {
            Ok(_) => {},
            Err(e) => {
                return Err(e);
            },
        }
        proof {
            assert forall|i: int| 0 <= i < self.files@.len() implies
                self.checksums@.dom().contains((#[trigger] self.files@[i]).file_id@) by {
                lemma_table_has_all(set.files, set.checksums, set.files.len(), i);
                assert(set.files[i].file_id == self.files@[i].file_id@);
                assert(crate::loader::checksum_map(self.checksums@).dom()
                    =~= self.checksums@.dom());
            }
        }
        match write_checksums(&mut out, &self.set_id, self.files.as_slice(), &self.checksums) {
            Ok(_) => {},
            Err(e) => {
                return Err(e);
            },
        }
        match write_recovery(&mut out, &self.set_id, blocks) {
            Ok(_) => {},
            Err(e) => {
                return Err(e);
            },
        }
        assert(out@ =~= volume_bytes(set, block_data(parser::recovery_views(blocks@))));
        Ok(out)
    }
}

/// The table holds the checksums of all files.
pub proof fn lemma_table_has_all(
    files: Seq<FileView>,
    checksums: Seq<Seq<ChecksumView>>,
    n: nat,
    i: int,
)
    requires
        0 <= i < n,
    ensures
        checksum_table(files, checksums, n).dom().contains(files[i].file_id),
    decreases n,
{
    if i < n - 1 {
        lemma_table_has_all(files, checksums, (n - 1) as nat, i);
    }
}

fn copy_checksums(v: &Vec<SliceChecksum>) -> (r: Vec<SliceChecksum>)
    ensures
        parser::checksum_views(r@) == parser::checksum_views(v@),
{
    let n: usize = v.len();
    let mut r: Vec<SliceChecksum> = Vec::with_capacity(n);
    for i in 0..n
        invariant
            n == v@.len(),
            r@.len() == i,
            forall|k: int| 0 <= k < i ==> (#[trigger] r@[k])@ == v@[k]@,
    {
        r.push(v[i].clone());
    }
    assert(parser::checksum_views(r@) =~= parser::checksum_views(v@));
    r
}


/// The output path for files of which the first one has the path: its extension is taken away, and what
/// then is its extension is replaced by `par2`.
pub open spec fn default_output(path: Seq<char>) -> Seq<char> {
    paths::extended(paths::extended(path, seq![]), "par2"@)
}

/// The output path for a file with one extension is its stem with the extension `par2`.
pub proof fn law_default_output(name: Seq<char>, extension: Seq<char>)
    requires
        paths::is_part(name),
        forall|i: int| 0 <= i < name.len() ==> #[trigger] name[i] != '.',
        paths::is_whole(extension),
        forall|i: int| 0 <= i < extension.len() ==> #[trigger] extension[i] != '.',
    ensures
        default_output(name + seq!['.'] + extension) == name + "."@ + "par2"@,
        default_output(name) == name + "."@ + "par2"@,
{
    reveal_strlit("par2");
    paths::law_stem(name, extension);
    paths::lemma_start_is(name, name.len() as int, 0);
    assert(paths::last_part(name) =~= name);
    paths::lemma_dot_before(name, name.len() as int);
    assert(paths::without_extension(name) =~= name);
}

/// Creates PAR2 files.
pub struct Par2Creator {
    pub input_files: Vec<InputFile>,
    pub output_path: String,
    pub block_size: Option<u64>,
    pub volume_scheme: VolumeScheme,
}

/// A block size that can be chosen.
pub open spec fn valid_block_size(size: u64) -> bool {
    MIN_BLOCK_SIZE <= size <= usize::MAX && size % 4 == 0
}

/// All blocks of a volume, by exponent.
pub open spec fn volume_parts(recovery: Seq<(u32, Seq<u8>)>, scheme: VolumeScheme) -> Seq<
    Seq<(u32, Seq<u8>)>,
> {
    let planned = volumes::planned_volumes(recovery, scheme, seq![]);
    let parts = Seq::new(planned.len(), |i: int| block_data(planned[i].recovery_blocks));
    match scheme {
        VolumeScheme::Single => parts,
        VolumeScheme::Exponential => seq![seq![]] + parts,
    }
}

/// Unless all is in one file, the files after the first one have the names of volumes, and lie in the
/// directory of the output path.
pub open spec fn are_placed(
    out: Seq<StoredFile>,
    recovery: Seq<(u32, Seq<u8>)>,
    scheme: VolumeScheme,
    output_path: Seq<char>,
) -> bool {
    let planned = volumes::planned_volumes(recovery, scheme, paths::stem(output_path));
    scheme == VolumeScheme::Exponential ==> forall|i: int|
        1 <= i < out.len() ==> paths::lies_in(
            (#[trigger] out[i]).path@,
            paths::directory(output_path),
            planned[i - 1].path,
        )
}

/// The files that were created: one for each volume, the first one at the output path. Unless all
/// is in one file, the first one holds no recovery blocks.
pub open spec fn is_created(
    out: Seq<StoredFile>,
    set: SetView,
    recovery: Seq<(u32, Seq<u8>)>,
    scheme: VolumeScheme,
    output_path: Seq<char>,
) -> bool {
    let parts = volume_parts(recovery, scheme);
    &&& out.len() == parts.len()
    &&& out.len() > 0
    &&& out[0].path@ == output_path
    &&& paths::is_simple(output_path) ==> are_placed(out, recovery, scheme, output_path)
    &&& forall|i: int|
        0 <= i < out.len() ==> (#[trigger] out[i]).data@ == volume_bytes(set, parts[i])
}

/// The descriptions are those of the files.
pub open spec fn describes(files: Seq<FileInfo>, inputs: Seq<InputFile>) -> bool {
    &&& files.len() == inputs.len()
    &&& forall|i: int|
        0 <= i < files.len() ==> (#[trigger] files[i])@ == described(
            files[i].name@,
            inputs[i].data@,
        )
}

/// Files whose paths are portable have the names at the ends of the paths.
pub open spec fn are_named(files: Seq<FileInfo>, inputs: Seq<InputFile>) -> bool {
    forall|i: int|
        0 <= i < files.len() ==> is_named_by((#[trigger] files[i]).name@, inputs[i].path@)
}

/// If the path is portable, the name is that at its end.
pub open spec fn is_named_by(name: Seq<char>, path: Seq<char>) -> bool {
    paths::is_portable(path) ==> paths::has_name(path) && name == paths::file_part(path)
}

/// The paths of all files are portable and end with names.
pub open spec fn have_names(inputs: Seq<InputFile>) -> bool {
    forall|i: int|
        0 <= i < inputs.len() ==> paths::is_portable((#[trigger] inputs[i]).path@)
            && paths::has_name(inputs[i].path@)
}

/// The IDs in file descriptions.
pub open spec fn ids_of(files: Seq<FileView>) -> Seq<Seq<u8>> {
    Seq::new(files.len(), |i: int| files[i].file_id)
}

fn list_ids(files: &Vec<FileInfo>) -> (r: Vec<FileHash>)
    ensures
        parser::id_views(r@) == ids_of(parser::file_views(files@)),
{
    let n: usize = files.len();
    let mut r: Vec<FileHash> = Vec::with_capacity(n);
    for i in 0..n
        invariant
            n == files@.len(),
            r@.len() == i,
            forall|k: int| 0 <= k < i ==> (#[trigger] r@[k])@ == files@[k].file_id@,
    {
        r.push(files[i].file_id);
    }
    assert(parser::id_views(r@) =~= ids_of(parser::file_views(files@)));
    r
}

proof fn lemma_total_without(lengths: Seq<u64>, block_size: int, p: int)
    requires
        0 <= p < lengths.len(),
    ensures
        total_blocks(lengths, block_size) == total_blocks(lengths.remove(p), block_size)
            + blocks::block_count(lengths[p] as int, block_size),
    decreases lengths.len(),
{
    let rest = lengths.remove(p);
    if p == lengths.len() - 1 {
        assert(rest =~= lengths.drop_last());
    } else {
        lemma_total_without(lengths.drop_last(), block_size, p);
        assert(rest.drop_last() =~= lengths.drop_last().remove(p));
        assert(rest.last() == lengths.last());
    }
}

/// The order of files does not change the number of their blocks.
proof fn lemma_total_in_any_order(lengths: Seq<u64>, order: Seq<int>, block_size: int)
    requires
        sums::is_permutation(order, lengths.len()),
    ensures
        total_blocks(ordering::arranged(lengths, order), block_size) == total_blocks(
            lengths,
            block_size,
        ),
    decreases lengths.len(),
{
    let listed = ordering::arranged(lengths, order);
    if lengths.len() == 0 {
        assert(listed =~= lengths);
    } else {
        let m = (lengths.len() - 1) as nat;
        sums::lemma_permutation_onto(order, lengths.len(), m as int);
        let p = choose|k: int| 0 <= k < lengths.len() && #[trigger] order[k] == m as int;
        let rest = order.remove(p);
        assert forall|i: int| 0 <= i < m implies 0 <= #[trigger] rest[i] < m by {
            let k = if i < p {
                i
            } else {
                i + 1
            };
            assert(rest[i] == order[k]);
            if k < p {
                assert(order[k] != order[p]);
            } else {
                assert(order[p] != order[k]);
            }
        }
        assert forall|i: int, j: int| 0 <= i < j < m implies #[trigger] rest[i]
            != #[trigger] rest[j] by {
            let a = if i < p {
                i
            } else {
                i + 1
            };
            let b = if j < p {
                j
            } else {
                j + 1
            };
            assert(order[a] != order[b]);
        }
        let before = lengths.drop_last();
        lemma_total_in_any_order(before, rest, block_size);
        lemma_total_without(listed, block_size, p);
        assert(listed.remove(p) =~= ordering::arranged(before, rest)) by {
            assert forall|i: int| 0 <= i < m implies listed.remove(p)[i] == before[rest[i]] by {
                assert(0 <= rest[i] < m);
            }
        }
    }
}

proof fn lemma_total_is_length(lengths: Seq<u64>, datas: Seq<Seq<u8>>, block_size: nat)
    requires
        block_size > 0,
        lengths.len() == datas.len(),
        forall|i: int| 0 <= i < datas.len() ==> #[trigger] lengths[i] == datas[i].len(),
    ensures
        total_blocks(lengths, block_size as int) == blocks::all_blocks(datas, block_size).len(),
    decreases lengths.len(),
{
    if lengths.len() > 0 {
        lemma_total_is_length(lengths.drop_last(), datas.drop_last(), block_size);
        assert(lengths[lengths.len() - 1] == datas.last().len());
        blocks::law_block_count(datas.last().len() as int, block_size as int, 0);
    }
}

pub proof fn lemma_total_is_all_blocks(inputs: Seq<InputFile>, order: Seq<int>, block_size: nat)
    requires
        block_size > 0,
        sums::is_permutation(order, inputs.len()),
    ensures
        total_blocks(input_lengths(inputs), block_size as int) == blocks::all_blocks(
            ordering::arranged(contents(inputs), order),
            block_size,
        ).len(),
{
    let lengths = input_lengths(inputs);
    let listed = ordering::arranged(lengths, order);
    let datas = ordering::arranged(contents(inputs), order);
    lemma_total_in_any_order(lengths, order, block_size as int);
    assert forall|i: int| 0 <= i < datas.len() implies #[trigger] listed[i] == datas[i].len() by {
        let k = order[i];
        assert(0 <= k < inputs.len());
        assert(inputs[k].data.len() == inputs[k].data@.len());
    }
    lemma_total_is_length(listed, datas, block_size);
}

/// The lengths of files.
pub open spec fn input_lengths(inputs: Seq<InputFile>) -> Seq<u64> {
    Seq::new(inputs.len(), |i: int| inputs[i].data@.len() as u64)
}

impl Par2Creator {
    pub open spec fn wf(&self) -> bool {
        self.input_files@.len() > 0 && (self.block_size matches Some(size) ==> valid_block_size(
            size,
        ))
    }

    /// The block size: the one chosen, or one that fits the size of the files.
    pub open spec fn size(&self) -> int {
        match self.block_size {
            Some(size) => size as int,
            None => optimal_block_size(total_length(input_lengths(self.input_files@))),
        }
    }

    /// The contents of the files in the order of their IDs, when the files are described by `files`.
    pub open spec fn ordered(&self, files: Seq<FileView>) -> Seq<Seq<u8>> {
        ordering::arranged(contents(self.input_files@), writer::id_order(ids_of(files)))
    }

    /// The data blocks. They are numbered file by file, the files in the order in which the main packet
    /// lists their IDs.
    pub open spec fn data(&self, files: Seq<FileView>) -> Seq<Seq<u8>> {
        blocks::all_blocks(self.ordered(files), self.size() as nat)
    }

    /// What the packets say when the files are described by `files`.
    pub open spec fn set(&self, files: Seq<FileView>) -> SetView {
        SetView {
            block_size: self.size() as u64,
            files,
            checksums: Seq::new(
                self.input_files@.len(),
                |i: int| file_checksums(self.input_files@[i].data@, self.size() as nat),
            ),
        }
    }

    /// The recovery blocks for a number of recovery bytes.
    pub open spec fn recovery(&self, files: Seq<FileView>, recovery_bytes: u64) -> Seq<
        (u32, Seq<u8>),
    > {
        recovery_set(
            self.data(files),
            self.size() as nat,
            blocks::block_count(recovery_bytes as int, self.size()) as nat,
        )
    }

    /// Create a creator for files. The block size is chosen automatically, the recovery blocks are
    /// distributed exponentially, and the output path is that of the first file with the extension
    /// `par2`. How a path that is not simple is taken apart depends on the operating system: the
    /// output path is then left open.
    pub fn new(input_files: Vec<InputFile>) -> (r: Result<Par2Creator>)
        ensures
            r is Ok <==> input_files@.len() > 0 && forall|i: int|
                0 <= i < input_files@.len() ==> (#[trigger] input_files@[i]).exists,
            r matches Ok(c) ==> c.wf() && c.input_files@ == input_files@ && c.block_size is None
                && c.volume_scheme == VolumeScheme::Exponential,
            r matches Ok(c) ==> paths::is_simple(input_files@[0].path@) ==> c.output_path@
                == default_output(input_files@[0].path@),
            input_files@.len() == 0 ==> (r matches Err(Par2Error::InvalidFormat(m)) && m@
                == "No input files"@),
            input_files@.len() > 0 && r is Err ==> exists|i: int|
                0 <= i < input_files@.len() && !(#[trigger] input_files@[i]).exists && (forall|j: int|
                    0 <= j < i ==> (#[trigger] input_files@[j]).exists) && (r matches Err(
                    Par2Error::InvalidFormat(m),
                ) && m@ == "Input file does not exist: "@ + input_files@[i].path@),
    {
        let n: usize = input_files.len();
        if n == 0 {
            return invalid("No input files");
        }
        for i in 0..n
            invariant
                n == input_files@.len(),
                forall|j: int| 0 <= j < i ==> (#[trigger] input_files@[j]).exists,
        {
            if !input_files[i].exists {
                let mut message: String = "Input file does not exist: ".to_owned();
                message.append(input_files[i].path.as_str());
                return Err(Par2Error::InvalidFormat(message));
            }
        }
        proof {
            reveal_strlit("");
            reveal_strlit("par2");
            assert(""@ =~= seq![]);
            if paths::is_simple(input_files@[0].path@) {
                paths::lemma_simple(input_files@[0].path@);
            }
        }
        let bare = paths::with_extension(input_files[0].path.as_str(), "");
        let output_path = paths::with_extension(bare.as_str(), "par2");
        Ok(
            Par2Creator {
                input_files,
                output_path,
                block_size: None,
                volume_scheme: VolumeScheme::Exponential,
            },
        )
    }

    /// Choose the block size: a multiple of 4, at least 2048.
    pub fn with_block_size(self, size: u64) -> (r: Result<Par2Creator>)
        requires
            self.wf(),
        ensures
            r is Ok <==> valid_block_size(size),
            r matches Ok(c) ==> c.wf() && c == (Par2Creator { block_size: Some(size), ..self }),
            r matches Err(e) ==> e matches Par2Error::InvalidFormat(m) && m@ == (if size == 0 {
                "Block size cannot be zero"@
            } else if size > usize::MAX {
                "Block size exceeds platform limits"@
            } else if size < MIN_BLOCK_SIZE {
                "Block size must be at least 2048 bytes (got "@ + text::decimal_digits(size as nat)
                    + ")"@
            } else {
                "Block size must be multiple of 4"@
            }),
    {
        if size == 0 {
            return invalid("Block size cannot be zero");
        }
        if size > usize::MAX as u64 {
            return invalid("Block size exceeds platform limits");
        }
        if size < MIN_BLOCK_SIZE {
            return invalid_number(
                "Block size must be at least 2048 bytes (got ",
                size as usize,
                ")",
            );
        }
        if size % 4 != 0 {
            return invalid("Block size must be multiple of 4");
        }
        Ok(
            Par2Creator {
                input_files: self.input_files,
                output_path: self.output_path,
                block_size: Some(size),
                volume_scheme: self.volume_scheme,
            },
        )
    }

    /// Choose the output path.
    pub fn with_output_path(self, path: String) -> (r: Par2Creator)
        ensures
            r == (Par2Creator { output_path: path, ..self }),
    {
        Par2Creator {
            input_files: self.input_files,
            output_path: path,
            block_size: self.block_size,
            volume_scheme: self.volume_scheme,
        }
    }

    /// Choose how recovery blocks are distributed.
    pub fn with_volume_scheme(self, scheme: VolumeScheme) -> (r: Par2Creator)
        ensures
            r == (Par2Creator { volume_scheme: scheme, ..self }),
    {
        Par2Creator {
            input_files: self.input_files,
            output_path: self.output_path,
            block_size: self.block_size,
            volume_scheme: scheme,
        }
    }

    /// Describe the files: their digests and IDs. It is an error if a path has no file name. How a path
    /// that is not portable is taken apart depends on the operating system: its name is then left
    /// open.
    pub fn describe_inputs(&self) -> (r: Result<Vec<FileInfo>>)
        ensures
            r matches Ok(files) ==> describes(files@, self.input_files@) && are_named(
                files@,
                self.input_files@,
            ),
            r matches Err(e) ==> e matches Par2Error::InvalidFormat(m) && m@ == "Invalid filename"@,
            have_names(self.input_files@) ==> r is Ok,
    {
        let n: usize = self.input_files.len();
        let mut files: Vec<FileInfo> = Vec::with_capacity(n);
        for i in 0..n
            invariant
                n == self.input_files@.len(),
                files@.len() == i,
                forall|k: int|
                    0 <= k < i ==> (#[trigger] files@[k])@ == described(
                        files@[k].name@,
                        self.input_files@[k].data@,
                    ) && is_named_by(files@[k].name@, self.input_files@[k].path@),
        {
            match paths::file_name(self.input_files[i].path.as_str()) {
                Some(name) => {
                    let file = describe_file(name.as_str(), self.input_files[i].data.as_slice());
                    assert(is_named_by(file.name@, self.input_files@[i as int].path@));
                    files.push(file);
                },
                None => {
                    return invalid("Invalid filename");
                },
            }
        }
        Ok(files)
    }

    /// Choose the block size, if none was chosen.
    pub fn choose_block_size(&self) -> (r: u64)
        requires
            self.wf(),
            total_length(input_lengths(self.input_files@)) <= u64::MAX,
        ensures
            r == self.size(),
            r >= MIN_BLOCK_SIZE,
            r % 4 == 0,
    {
        match self.block_size {
            Some(size) => size,
            None => {
                let ghost lengths = input_lengths(self.input_files@);
                let n: usize = self.input_files.len();
                let mut total: u64 = 0;
                assert(lengths.take(0) =~= seq![]);
                for i in 0..n
                    invariant
                        n == self.input_files@.len(),
                        lengths == input_lengths(self.input_files@),
                        total_length(lengths) <= u64::MAX,
                        total == total_length(lengths.take(i as int)),
                {
                    let length: usize = self.input_files[i].data.len();
                    proof {
                        assert(lengths.take(i + 1).drop_last() =~= lengths.take(i as int));
                        assert(lengths.take(i + 1).last() == length as u64);
                        lemma_total_length_monotone(lengths, i + 1);
                    }
                    total = total + length as u64;
                }
                proof {
                    assert(lengths.take(n as int) =~= lengths);
                    law_block_size(total as int);
                }
                calculate_block_size(total)
            },
        }
    }

    /// The number of bytes in the data blocks, to which a redundancy applies.
    pub fn data_bytes(&self, files: &Vec<FileInfo>) -> (r: Result<u64>)
        requires
            self.wf(),
            describes(files@, self.input_files@),
            total_length(input_lengths(self.input_files@)) <= u64::MAX,
        ensures
            match data_error(input_lengths(self.input_files@), self.size()) {
                Some(e) => r matches Err(Par2Error::InvalidFormat(m)) && m@ == plan_message(
                    e,
                    names_of(parser::file_views(files@)),
                ),
                None => r matches Ok(n) && n == total_blocks(
                    input_lengths(self.input_files@),
                    self.size(),
                ) * self.size(),
            },
    {
        let block_size: u64 = self.choose_block_size();
        proof {
            assert(lengths_of(parser::file_views(files@)) =~= input_lengths(self.input_files@));
        }
        match count_data_blocks(files.as_slice(), block_size) {
            Ok(n) => Ok(n as u64 * block_size),
            Err(e) => Err(e),
        }
    }
}

pub proof fn lemma_total_length_monotone(lengths: Seq<u64>, n: int)
    requires
        0 <= n <= lengths.len(),
    ensures
        total_length(lengths.take(n)) <= total_length(lengths),
    decreases lengths.len(),
{
    if n == lengths.len() {
        assert(lengths.take(n) =~= lengths);
    } else {
        lemma_total_length_monotone(lengths.drop_last(), n);
        assert(lengths.drop_last().take(n) =~= lengths.take(n));
    }
}

/// The blocks of the volumes that are planned.
proof fn lemma_parts(
    recovery: Seq<(u32, Seq<u8>)>,
    scheme: VolumeScheme,
    volumes: Seq<VolumeInfo>,
    block_size: nat,
)
    requires
        block_size <= usize::MAX,
        forall|i: int| 0 <= i < recovery.len() ==> (#[trigger] recovery[i]).1.len() == block_size,
        volumes::same_but_paths(
            volumes::volume_views(volumes),
            volumes::planned_volumes(recovery, scheme, seq![]),
        ),
    ensures
        ({
            let planned = volumes::planned_volumes(recovery, scheme, seq![]);
            &&& volumes.len() == planned.len()
            &&& forall|i: int|
                0 <= i < volumes.len() ==> block_data(
                    parser::recovery_views((#[trigger] volumes[i]).recovery_blocks@),
                ) == block_data(planned[i].recovery_blocks)
            &&& forall|i: int|
                0 <= i < volumes.len() ==> writable(#[trigger] volumes[i])
        }),
{
    let planned = volumes::planned_volumes(recovery, scheme, seq![]);
    let views = volumes::volume_views(volumes);
    assert forall|i: int| 0 <= i < volumes.len() implies block_data(
        parser::recovery_views((#[trigger] volumes[i]).recovery_blocks@),
    ) == block_data(planned[i].recovery_blocks) && writable(volumes[i]) by {
        assert(views[i].recovery_blocks == planned[i].recovery_blocks);
        let blocks = volumes[i].recovery_blocks@;
        assert forall|k: int| 0 <= k < blocks.len() implies (#[trigger] blocks[k]).data is Some
            && blocks[k].data_length <= usize::MAX by {
            volumes::lemma_planned_block(recovery, scheme, seq![], i, k);
            assert(parser::recovery_views(blocks)[k] == blocks[k]@);
        }
    }
}

/// The recovery blocks of the volume are in memory.
spec fn writable(volume: VolumeInfo) -> bool {
    forall|k: int|
        0 <= k < volume.recovery_blocks@.len() ==> (
        #[trigger] volume.recovery_blocks@[k]).data is Some
            && volume.recovery_blocks@[k].data_length <= usize::MAX
}

/// Distribute recovery blocks over volumes, the first one at the output path. Unless all blocks go
/// into one volume, the first one holds none.
fn arrange_volumes(
    recovery: Vec<(u32, Vec<u8>)>,
    scheme: VolumeScheme,
    output_path: &String,
    block_size: usize,
) -> (r: Result<Vec<VolumeInfo>>)
    requires
        scheme == VolumeScheme::Single ==> recovery@.len() > 0,
        volumes::in_sequence(volumes::block_views(recovery@)),
        forall|i: int| 0 <= i < recovery@.len() ==> (#[trigger] recovery@[i]).1@.len() == block_size,
    ensures
        ({
            let parts = volume_parts(volumes::block_views(recovery@), scheme);
            r matches Ok(list) && list@.len() == parts.len() && list@.len() > 0 && list@[0].path@
                == output_path@ && (forall|i: int|
                0 <= i < list@.len() ==> block_data(
                    parser::recovery_views((#[trigger] list@[i]).recovery_blocks@),
                ) == parts[i] && writable(list@[i])) && (paths::is_simple(output_path@) && scheme
                == VolumeScheme::Exponential ==> forall|i: int|
                1 <= i < list@.len() ==> paths::lies_in(
                    (#[trigger] list@[i]).path@,
                    paths::directory(output_path@),
                    volumes::planned_volumes(
                        volumes::block_views(recovery@),
                        scheme,
                        paths::stem(output_path@),
                    )[i - 1].path,
                ))
        }),
{
    let ghost blocks = volumes::block_views(recovery@);
    let ghost parts = volume_parts(blocks, scheme);
    proof {
        volumes::law_sequences_can_be_named(blocks, scheme);
    }
    let mut list = match volumes::split_into_volumes(recovery, scheme, output_path.as_str()) {
        Ok(v) => v,
        Err(e) => {
            return Err(e);
        },
    };
    proof {
        assert forall|i: int| 0 <= i < blocks.len() implies (#[trigger] blocks[i]).1.len()
            == block_size by {
            assert(recovery@[i].1@.len() == block_size);
        }
        lemma_parts(blocks, scheme, list@, block_size as nat);
    }
    match scheme {
        VolumeScheme::Single => {
            let path: String = output_path.clone();
            list[0].path = path;
        },
        VolumeScheme::Exponential => {
            let index = VolumeInfo {
                path: output_path.clone(),
                exponent_start: 0,
                exponent_end: 0,
                recovery_blocks: Vec::new(),
            };
            assert(block_data(parser::recovery_views(index.recovery_blocks@)) =~= seq![]);
            let ghost before = list@;
            list.insert(0, index);
            proof {
                assert forall|i: int| 1 <= i < list@.len() && paths::is_simple(
                    output_path@,
                ) implies paths::lies_in(
                    (#[trigger] list@[i]).path@,
                    paths::directory(output_path@),
                    volumes::planned_volumes(blocks, scheme, paths::stem(output_path@))[i - 1].path,
                ) by {
                    assert(list@[i] == before[i - 1]);
                    assert(volumes::volume_views(before)[i - 1].path == before[i - 1].path@);
                }
            }
        },
    }
    Ok(list)
}

impl SetPackets {
    /// Write volumes with recovery blocks.
    fn write_volumes(
        &self,
        volumes: &Vec<VolumeInfo>,
        Ghost(set): Ghost<SetView>,
        Ghost(parts): Ghost<Seq<Seq<(u32, Seq<u8>)>>>,
    ) -> (r: Result<Vec<StoredFile>>)
        requires
            self.is_of(set),
            volumes@.len() == parts.len(),
            forall|k: int|
                0 <= k < volumes@.len() ==> block_data(
                    parser::recovery_views((#[trigger] volumes@[k]).recovery_blocks@),
                ) == parts[k] && writable(volumes@[k]),
        ensures
            r matches Ok(out) && out@.len() == parts.len() && forall|k: int|
                0 <= k < out@.len() ==> (#[trigger] out@[k]).path@ == volumes@[k].path@
                    && out@[k].data@ == volume_bytes(set, parts[k]),
    {
        let n: usize = volumes.len();
        let mut out: Vec<StoredFile> = Vec::with_capacity(n);
        for i in 0..n
            invariant
                n == volumes@.len(),
                n == parts.len(),
                self.is_of(set),
                forall|k: int|
                    0 <= k < n ==> block_data(
                        parser::recovery_views((#[trigger] volumes@[k]).recovery_blocks@),
                    ) == parts[k] && writable(volumes@[k]),
                out@.len() == i,
                forall|k: int|
                    0 <= k < i ==> (#[trigger] out@[k]).path@ == volumes@[k].path@
                        && out@[k].data@ == volume_bytes(set, parts[k]),
        {
            assert(writable(volumes@[i as int]));
            let data: Vec<u8> = match self.write_volume(
                volumes[i].recovery_blocks.as_slice(),
                Ghost(set),
            ) {
                Ok(data) => data,
                Err(e) => {
                    return Err(e);
                },
            };
            out.push(StoredFile { path: volumes[i].path.clone(), data });
        }
        Ok(out)
    }
}

impl SetPackets {
    /// Write the recovery blocks and the packets of the set into volumes.
    fn write_set(
        &self,
        recovery: Vec<(u32, Vec<u8>)>,
        scheme: VolumeScheme,
        output_path: &String,
        block_size: usize,
        Ghost(set): Ghost<SetView>,
    ) -> (r: Result<Vec<StoredFile>>)
        requires
            self.is_of(set),
            scheme == VolumeScheme::Single ==> recovery@.len() > 0,
            volumes::in_sequence(volumes::block_views(recovery@)),
            forall|i: int|
                0 <= i < recovery@.len() ==> (#[trigger] recovery@[i]).1@.len() == block_size,
        ensures
            r matches Ok(out) && is_created(
                out@,
                set,
                volumes::block_views(recovery@),
                scheme,
                output_path@,
            ),
    {
        let ghost parts = volume_parts(volumes::block_views(recovery@), scheme);
        let volumes: Vec<VolumeInfo> = match arrange_volumes(
            recovery,
            scheme,
            output_path,
            block_size,
        ) {
            Ok(v) => v,
            Err(e) => {
                return Err(e);
            },
        };
        self.write_volumes(&volumes, Ghost(set), Ghost(parts))
    }
}

/// Recovery blocks have the size of blocks, and come in sequence.
proof fn lemma_recovery_set(
    data: Seq<Seq<u8>>,
    block_size: nat,
    count: nat,
    recovery: Seq<(u32, Vec<u8>)>,
)
    requires
        block_size % 4 == 0,
        count <= MAX_BLOCKS,
        volumes::block_views(recovery) == recovery_set(data, block_size, count),
    ensures
        recovery.len() == count,
        volumes::in_sequence(volumes::block_views(recovery)),
        forall|i: int| 0 <= i < recovery.len() ==> (#[trigger] recovery[i]).1@.len() == block_size,
{
    let all = recovery_set(data, block_size, count);
    assert(volumes::block_views(recovery).len() == recovery.len());
    assert forall|i: int| 0 <= i < recovery.len() implies (#[trigger] recovery[i]).1@.len()
        == block_size by {
        assert(volumes::block_views(recovery)[i] == (recovery[i].0, recovery[i].1@));
        assert(all[i].1 == recovery_data(data, block_size, i as nat));
        assert(all[i].1.len() == 2 * (block_size / 2));
    }
}

impl Par2Creator {
    /// Create the PAR2 files of files that are described by `files`, with as many recovery blocks
    /// as hold `recovery_bytes`.
    #[verifier::rlimit(40)]
    pub fn create_described(
        &self,
        files: Vec<FileInfo>,
        recovery_bytes: u64,
        num_cpus: usize,
    ) -> (r: Result<Vec<StoredFile>>)
        requires
            self.wf(),
            describes(files@, self.input_files@),
            total_length(input_lengths(self.input_files@)) <= u64::MAX,
            num_cpus > 0,
            self.volume_scheme == VolumeScheme::Single && recovery_bytes == 0 ==> plan_error(
                input_lengths(self.input_files@),
                self.size(),
                recovery_bytes as int,
            ) is Some,
        ensures
            match plan_error(
                input_lengths(self.input_files@),
                self.size(),
                recovery_bytes as int,
            ) {
                Some(e) => r matches Err(Par2Error::InvalidFormat(m)) && m@ == plan_message(
                    e,
                    names_of(parser::file_views(files@)),
                ),
                None => r matches Ok(out) && is_created(
                    out@,
                    self.set(parser::file_views(files@)),
                    self.recovery(parser::file_views(files@), recovery_bytes),
                    self.volume_scheme,
                    self.output_path@,
                ),
            },
    {
        let ghost views = parser::file_views(files@);
        let ghost lengths = input_lengths(self.input_files@);
        let block_size: u64 = self.choose_block_size();
        proof {
            assert(lengths_of(views) =~= lengths);
        }
        let data_blocks: usize = match count_data_blocks(files.as_slice(), block_size) {
            Ok(n) => n,
            Err(e) => {
                return Err(e);
            },
        };
        proof {
            lemma_counted(lengths, block_size as int, 0);
        }
        let recovery_blocks: usize = match count_recovery_blocks(
            data_blocks,
            recovery_bytes,
            block_size,
        ) {
            Ok(n) => n,
            Err(e) => {
                return Err(e);
            },
        };
        let ids = list_ids(&files);
        let order = writer::order_ids(ids.as_slice());
        proof {
            assert(parser::id_views(ids@) == ids_of(views));
            lemma_total_is_all_blocks(
                self.input_files@,
                solver::indices(order@),
                self.size() as nat,
            );
        }
        let (checksums, recovery) = match encode_files(
            self.input_files.as_slice(),
            &order,
            block_size as usize,
            data_blocks,
            recovery_blocks,
            num_cpus,
        ) {
            Ok(v) => v,
            Err(e) => {
                return Err(e);
            },
        };
        let ghost recovered = self.recovery(views, recovery_bytes);
        let ghost set = self.set(views);
        assert(volumes::block_views(recovery@) == recovered);
        let prepared = SetPackets::new(block_size, files, &checksums);
        proof {
            let made = set_view(block_size, files@, checksums@);
            assert(made.checksums =~= set.checksums);
            assert(prepared.is_of(set));
            blocks::law_block_count(recovery_bytes as int, block_size as int, 0);
            lemma_recovery_set(
                self.data(views),
                block_size as nat,
                recovery_blocks as nat,
                recovery@,
            );
        }
        prepared.write_set(
            recovery,
            self.volume_scheme,
            &self.output_path,
            block_size as usize,
            Ghost(set),
        )
    }

    /// Create the PAR2 files, with as many recovery blocks as hold `recovery_bytes`. It is an error
    /// if the path of a file has no file name. How input paths that are not portable, and an output path
    /// that is not simple, are taken apart depends on the operating system: what comes of them is then
    /// left open.
    pub fn create(&self, recovery_bytes: u64, num_cpus: usize) -> (r: Result<Vec<StoredFile>>)
        requires
            self.wf(),
            total_length(input_lengths(self.input_files@)) <= u64::MAX,
            num_cpus > 0,
            self.volume_scheme == VolumeScheme::Single && recovery_bytes == 0 ==> plan_error(
                input_lengths(self.input_files@),
                self.size(),
                recovery_bytes as int,
            ) is Some,
        ensures
            r matches Ok(out) ==> plan_error(
                input_lengths(self.input_files@),
                self.size(),
                recovery_bytes as int,
            ) is None && exists|files: Seq<FileInfo>|
                #[trigger] describes(files, self.input_files@) && are_named(
                    files,
                    self.input_files@,
                ) && is_created(
                    out@,
                    self.set(parser::file_views(files)),
                    self.recovery(parser::file_views(files), recovery_bytes),
                    self.volume_scheme,
                    self.output_path@,
                ),
            have_names(self.input_files@) && plan_error(
                input_lengths(self.input_files@),
                self.size(),
                recovery_bytes as int,
            ) is None ==> r is Ok,
            r matches Err(e) ==> e matches Par2Error::InvalidFormat(m) && ((!have_names(
                self.input_files@,
            ) && m@ == "Invalid filename"@) || exists|files: Seq<FileInfo>|
                #[trigger] describes(files, self.input_files@) && are_named(
                    files,
                    self.input_files@,
                ) && plan_error(
                    input_lengths(self.input_files@),
                    self.size(),
                    recovery_bytes as int,
                ) is Some && m@ == plan_message(
                    plan_error(
                        input_lengths(self.input_files@),
                        self.size(),
                        recovery_bytes as int,
                    )->Some_0,
                    names_of(parser::file_views(files)),
                )),
    {
        match self.describe_inputs() {
            Ok(files) => {
                let ghost described = files@;
                assert(describes(described, self.input_files@));
                self.create_described(files, recovery_bytes, num_cpus)
            },
            Err(e) => Err(e),
        }
    }
}

/// What was counted without an error is at most the limit.
pub proof fn lemma_counted(lengths: Seq<u64>, block_size: int, from: int)
    requires
        counting_error(lengths, block_size, from) is None,
    ensures
        total_blocks(lengths, block_size) <= MAX_BLOCKS,
    decreases lengths.len() - from,
{
    if from < lengths.len() {
        lemma_counted(lengths, block_size, from + 1);
    }
}

/// The output path for a simple path keeps its directory, and ends with `.par2` in place of what stands
/// behind a dot of the name, if anything does.
pub proof fn law_output_is_beside_the_first_file(path: Seq<char>)
    requires
        paths::is_simple(path),
    ensures
        ({
            let out = default_output(path);
            let start = paths::name_start(path);
            &&& start < out.len() - 5 <= path.len()
            &&& out.skip(out.len() - 5) == seq!['.', 'p', 'a', 'r', '2']
            &&& out.take(out.len() - 5) == path.take(out.len() - 5)
            &&& out.len() - 5 == path.len() || path[out.len() - 5] == '.'
        }),
{
    reveal_strlit("par2");
    reveal_strlit(".");
    paths::lemma_simple(path);
    let bare = paths::without_extension(path);
    paths::lemma_simple(bare);
    let out = default_output(path);
    let start = paths::name_start(path);
    let k = start + paths::stem(path).len();
    let end = start + paths::stem(bare).len();
    let name = paths::last_part(path);
    let shorter = paths::last_part(bare);
    paths::lemma_dot_before(name, name.len() as int);
    paths::lemma_dot_before(shorter, shorter.len() as int);
    assert(bare =~= path.take(k));
    assert(shorter.len() == bare.len() - start);
    assert(paths::stem(bare).len() <= shorter.len());
    assert(paths::stem(path).len() <= name.len());
    assert(paths::without_extension(bare) =~= bare.take(end));
    assert(out =~= bare.take(end) + seq!['.', 'p', 'a', 'r', '2']);
    assert(out.skip(out.len() - 5) =~= seq!['.', 'p', 'a', 'r', '2']);
    assert(bare.take(end) =~= path.take(end));
    assert(out.take(out.len() - 5) =~= path.take(end));
    if end < bare.len() {
        assert(shorter[end - start] == '.');
        assert(bare[end] == shorter[end - start]);
    } else if k < path.len() {
        assert(name[k - start] == '.');
    }
}

/// Descriptions are those of the files, one for each: with the name at the end of the path, if the path
/// is portable, and made from the contents.
pub proof fn law_inputs_are_described(files: Seq<FileInfo>, inputs: Seq<InputFile>, i: int)
    requires
        describes(files, inputs),
        are_named(files, inputs),
        0 <= i < files.len(),
    ensures
        files.len() == inputs.len(),
        files[i]@ == described(files[i].name@, inputs[i].data@),
        paths::is_portable(inputs[i].path@) ==> paths::has_name(inputs[i].path@) && files[i].name@
            == paths::file_part(inputs[i].path@),
{
    assert(is_named_by(files[i].name@, inputs[i].path@));
}

/// The first of the files that are created lies at the output path. Unless all is in one file, each other
/// one lies beside it, under the name of its volume, and there is one for each volume.
pub proof fn law_created_files_have_their_places(
    out: Seq<StoredFile>,
    set: SetView,
    recovery: Seq<(u32, Seq<u8>)>,
    scheme: VolumeScheme,
    output_path: Seq<char>,
    i: int,
)
    requires
        is_created(out, set, recovery, scheme, output_path),
    ensures
        out[0].path@ == output_path,
        scheme == VolumeScheme::Single ==> out.len() == 1,
        scheme == VolumeScheme::Exponential ==> out.len() == 1 + volumes::planned_volumes(
            recovery,
            scheme,
            paths::stem(output_path),
        ).len(),
        scheme == VolumeScheme::Exponential && paths::is_simple(output_path) && 1 <= i < out.len()
            ==> paths::lies_in(
            out[i].path@,
            paths::directory(output_path),
            volumes::planned_volumes(recovery, scheme, paths::stem(output_path))[i - 1].path,
        ),
{
    volumes::law_base_name_names_volumes(recovery, scheme, paths::stem(output_path), seq![]);
}

/// Where all is in one file, it holds all recovery blocks. Otherwise the first file holds none, and each
/// other one just those of its volume.
pub proof fn law_created_files_hold_their_blocks(
    out: Seq<StoredFile>,
    set: SetView,
    recovery: Seq<(u32, Seq<u8>)>,
    scheme: VolumeScheme,
    output_path: Seq<char>,
    base_name: Seq<char>,
    i: int,
)
    requires
        is_created(out, set, recovery, scheme, output_path),
        0 <= i < out.len(),
    ensures
        scheme == VolumeScheme::Single ==> out[i].data@ == volume_bytes(set, recovery),
        scheme == VolumeScheme::Exponential && i == 0 ==> out[i].data@ == volume_bytes(
            set,
            seq![],
        ),
        scheme == VolumeScheme::Exponential && i > 0 ==> {
            let blocks = volumes::planned_volumes(recovery, scheme, base_name)[i
                - 1].recovery_blocks;
            out[i].data@ == volume_bytes(
                set,
                Seq::new(blocks.len(), |k: int| (blocks[k].exponent, blocks[k].data->Some_0)),
            )
        },
{
    volumes::law_base_name_names_volumes(recovery, scheme, base_name, seq![]);
    let planned = volumes::planned_volumes(recovery, scheme, seq![]);
    let parts = volume_parts(recovery, scheme);
    match scheme {
        VolumeScheme::Single => {
            assert(parts[0] =~= recovery);
        },
        VolumeScheme::Exponential => {
            if i > 0 {
                let named = volumes::planned_volumes(recovery, scheme, base_name);
                assert(named[i - 1].recovery_blocks == planned[i - 1].recovery_blocks);
                assert(parts[i] =~= block_data(planned[i - 1].recovery_blocks));
            }
        },
    }
}

} // verus!
