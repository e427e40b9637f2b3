//! The blocks of a file: pieces of the same size, the last one filled up with zeros.

use vstd::prelude::*;

verus! {

/// The number of blocks of a file: its length divided by the block size, rounded up.
pub open spec fn block_count(length: int, block_size: int) -> int {
    (length + block_size - 1) / block_size
}

/// Block `i` of a file.
pub open spec fn block_at(data: Seq<u8>, block_size: nat, i: int) -> Seq<u8> {
    Seq::new(
        block_size,
        |k: int|
            if i * block_size + k < data.len() {
                data[i * block_size + k]
            } else {
                0
            },
    )
}

/// The blocks of a file.
pub open spec fn file_blocks(data: Seq<u8>, block_size: nat) -> Seq<Seq<u8>> {
    Seq::new(
        block_count(data.len() as int, block_size as int) as nat,
        |i: int| block_at(data, block_size, i),
    )
}

/// The blocks of files, one file after the other.
pub open spec fn all_blocks(files: Seq<Seq<u8>>, block_size: nat) -> Seq<Seq<u8>>
    decreases files.len(),
{
    if files.len() == 0 {
        seq![]
    } else {
        all_blocks(files.drop_last(), block_size) + file_blocks(files.last(), block_size)
    }
}

/// Which blocks a file has: `i` is the index of one of them just if the file reaches beyond its
/// start.
pub proof fn law_block_count(length: int, block_size: int, i: int)
    requires
        length >= 0,
        block_size > 0,
        i >= 0,
    ensures
        block_count(length, block_size) >= 0,
        i < block_count(length, block_size) <==> i * block_size < length,
{
    let q = block_count(length, block_size);
    let r = (length + block_size - 1) % block_size;
    assert(length + block_size - 1 == block_size * q + r && 0 <= r < block_size) by (nonlinear_arith)
        requires
            block_size > 0,
            q == (length + block_size - 1) / block_size,
            r == (length + block_size - 1) % block_size,
    ;
    assert(q >= 0) by (nonlinear_arith)
        requires
            block_size > 0,
            length >= 0,
            length + block_size - 1 == block_size * q + r,
            0 <= r < block_size,
    ;
    if i < q {
        assert(i * block_size < length) by (nonlinear_arith)
            requires
                block_size > 0,
                i <= q - 1,
                length + block_size - 1 == block_size * q + r,
                0 <= r < block_size,
        ;
    } else {
        assert(i * block_size >= length) by (nonlinear_arith)
            requires
                block_size > 0,
                i >= q,
                length + block_size - 1 == block_size * q + r,
                0 <= r < block_size,
        ;
    }
}

/// A file can be put together from its blocks: byte `k` stands in block `k / block_size`.
pub proof fn law_blocks_hold_file(data: Seq<u8>, block_size: nat, k: int)
    requires
        block_size > 0,
        0 <= k < data.len(),
    ensures
        0 <= k / (block_size as int) < file_blocks(data, block_size).len(),
        file_blocks(data, block_size)[k / (block_size as int)][k % (block_size as int)] == data[k],
{
    let i = k / block_size as int;
    let j = k % block_size as int;
    assert(k == i * block_size + j && 0 <= j < block_size && i >= 0) by (nonlinear_arith)
        requires
            block_size > 0,
            k >= 0,
            i == k / block_size as int,
            j == k % block_size as int,
    ;
    law_block_count(data.len() as int, block_size as int, i);
}

/// The number of blocks before those of file `i`.
pub open spec fn first_block(files: Seq<Seq<u8>>, block_size: nat, i: int) -> int {
    all_blocks(files.take(i), block_size).len() as int
}

pub proof fn lemma_first_block(files: Seq<Seq<u8>>, block_size: nat, i: int)
    requires
        block_size > 0,
        0 <= i < files.len(),
    ensures
        first_block(files, block_size, i + 1) == first_block(files, block_size, i) + block_count(
            files[i].len() as int,
            block_size as int,
        ),
{
    law_block_count(files[i].len() as int, block_size as int, 0);
    assert(files.take(i + 1).drop_last() =~= files.take(i));
}

pub proof fn lemma_first_block_monotone(files: Seq<Seq<u8>>, block_size: nat, i: int, j: int)
    requires
        block_size > 0,
        0 <= i <= j <= files.len(),
    ensures
        first_block(files, block_size, i) <= first_block(files, block_size, j),
    decreases j - i,
{
    if i < j {
        lemma_first_block_monotone(files, block_size, i, j - 1);
        lemma_first_block(files, block_size, j - 1);
        law_block_count(files[j - 1].len() as int, block_size as int, 0);
    }
}

/// The blocks of files are numbered file by file: block `j` of file `i` comes after all blocks of
/// the files before it.
pub proof fn law_block_numbers(files: Seq<Seq<u8>>, block_size: nat, i: int, j: int)
    requires
        block_size > 0,
        0 <= i < files.len(),
        0 <= j < block_count(files[i].len() as int, block_size as int),
    ensures
        first_block(files, block_size, i) + j < all_blocks(files, block_size).len(),
        all_blocks(files, block_size)[first_block(files, block_size, i) + j] == block_at(
            files[i],
            block_size,
            j,
        ),
    decreases files.len(),
{
    let before = files.drop_last();
    if i < before.len() {
        law_block_numbers(before, block_size, i, j);
        assert(before.take(i) =~= files.take(i));
    } else {
        assert(files.take(i) =~= before);
    }
}

/// The number of blocks of a file.
pub fn count_blocks(length: u64, block_size: u64) -> (r: u64)
    requires
        block_size > 0,
    ensures
        r == block_count(length as int, block_size as int),
        r <= length,
{
    proof {
        law_block_count(length as int, block_size as int, length as int);
        assert(length * block_size >= length) by (nonlinear_arith)
            requires
                block_size >= 1,
        ;
    }
    let whole: u64 = length / block_size;
    let rest: u64 = length % block_size;
    proof {
        assert(length == block_size * whole + rest && rest < block_size) by (nonlinear_arith)
            requires
                block_size > 0,
                whole == length / block_size,
                rest == length % block_size,
        ;
        law_block_count(length as int, block_size as int, whole as int);
        law_block_count(length as int, block_size as int, whole + 1);
        assert(whole * block_size == block_size * whole) by (nonlinear_arith);
        assert((whole + 1) * block_size == block_size * whole + block_size) by (nonlinear_arith);
        if whole > 0 {
            law_block_count(length as int, block_size as int, whole - 1);
            assert((whole - 1) * block_size == block_size * whole - block_size)
                by (nonlinear_arith);
        }
    }
    if rest == 0 {
        whole
    } else {
        whole + 1
    }
}

/// Take block `i` of a file.
pub fn take_block(data: &[u8], block_size: usize, i: usize) -> (r: Vec<u8>)
    requires
        block_size > 0,
        i < block_count(data@.len() as int, block_size as int),
    ensures
        r@ == block_at(data@, block_size as nat, i as int),
{
    let n: usize = data.len();
    proof {
        law_block_count(n as int, block_size as int, i as int);
    }
    let start: usize = i * block_size;
    let end: usize = if n - start <= block_size {
        n
    } else {
        start + block_size
    };
    let mut r: Vec<u8> = vstd::slice::slice_to_vec(&data[start..end]);
    while r.len() < block_size
        invariant
            r@.len() <= block_size,
            start == i * block_size,
            start <= end <= n,
            n == data@.len(),
            end == n || end == start + block_size,
            r@.len() >= end - start,
            forall|k: int| 0 <= k < end - start ==> r@[k] == data@[start + k],
            forall|k: int| end - start <= k < r@.len() ==> r@[k] == 0,
        decreases block_size - r@.len(),
    {
        r.push(0);
    }
    assert(r@ =~= block_at(data@, block_size as nat, i as int));
    r
}

} // verus!
