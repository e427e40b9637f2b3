//! Encoding block by block: data blocks are handed over one after the other, buffered, and added to
//! all recovery blocks a batch at a time.

use vstd::prelude::*;

use crate::galois::bulk;
use crate::galois::field;
use crate::galois::ops::gf_muladd;
use crate::galois::sums;
use crate::reed_solomon;
use crate::reed_solomon::Par2ReedSolomon;

verus! {

/// `x`, moved into the range from `low` to `high`.
pub open spec fn clamped(x: int, low: int, high: int) -> int {
    if x < low {
        low
    } else if x > high {
        high
    } else {
        x
    }
}

/// The number of data blocks to buffer: 8, 4 or 2 for each CPU, the more of them the more
/// recovery blocks there are, but at least 16 and at most 128.
pub fn optimal_data_batch_size(recovery_blocks: usize, num_cpus: usize) -> (r: usize)
    ensures
        r == clamped(
            num_cpus * (if recovery_blocks >= 100 {
                8int
            } else if recovery_blocks >= 50 {
                4
            } else {
                2
            }),
            16,
            128,
        ),
{
    if num_cpus >= 128 {
        return 128;
    }
    let base_batch: usize = if recovery_blocks >= 100 {
        num_cpus * 8
    } else if recovery_blocks >= 50 {
        num_cpus * 4
    } else {
        num_cpus * 2
    };
    if base_batch < 16 {
        16
    } else if base_batch > 128 {
        128
    } else {
        base_batch
    }
}

/// The number of recovery blocks to take together: as many as there are for each CPU, but at least
/// 4 and at most 8.
pub fn optimal_recovery_batch_size(recovery_blocks: usize, num_cpus: usize) -> (r: usize)
    requires
        num_cpus > 0,
    ensures
        r == clamped((recovery_blocks / num_cpus) as int, 4, 8),
{
    let max_batch: usize = recovery_blocks / num_cpus;
    if max_batch < 4 {
        4
    } else if max_batch > 8 {
        8
    } else {
        max_batch
    }
}

/// An encoder that takes the data blocks one after the other.
pub struct StreamingEncoder {
    /// Number of data blocks to encode.
    pub data_blocks: usize,
    /// Size of each block in bytes.
    pub block_size: usize,
    /// Size of each block in elements.
    pub symbols_per_block: usize,
    /// The constant of each data block raised to each exponent.
    pub coeff_matrix: Vec<Vec<u16>>,
    /// The recovery blocks, as far as batches have been added to them.
    pub recovery_data: Vec<Vec<u16>>,
    /// Buffers for the data blocks of a batch.
    pub batch_buffers: Vec<Vec<u16>>,
    /// Indices of the data blocks in the buffers.
    pub batch_indices: Vec<usize>,
    /// Number of data blocks in a batch.
    pub data_batch_size: usize,
    /// Number of recovery blocks taken together.
    pub recovery_batch_size: usize,
}

/// The encoder is for so many data blocks and recovery blocks of a size, and has taken no data block.
pub open spec fn is_fresh(
    encoder: StreamingEncoder,
    data_blocks: usize,
    recovery_blocks: usize,
    block_size: usize,
) -> bool {
    &&& encoder.ready()
    &&& encoder.data_batch_size > 0
    &&& encoder.data_blocks == data_blocks
    &&& encoder.block_size == block_size
    &&& encoder.recovery_data@.len() == recovery_blocks
    &&& forall|e: int, s: int|
        0 <= e < recovery_blocks && 0 <= s < block_size / 2 ==> #[trigger] encoder.total(e, s) == 0
}

/// An encoder takes a data block: the block times its coefficient is added to every recovery block. The
/// index of a block beyond the last one is ignored. Of a block shorter than the others, the rest of the
/// buffer counts as it is.
pub open spec fn takes(
    before: StreamingEncoder,
    after: StreamingEncoder,
    index: int,
    block: Seq<u16>,
) -> bool {
    &&& after.ready()
    &&& after.data_blocks == before.data_blocks
    &&& after.block_size == before.block_size
    &&& after.data_batch_size == before.data_batch_size
    &&& after.recovery_data@.len() == before.recovery_data@.len()
    &&& index >= before.data_blocks ==> after == before
    &&& forall|e: int, s: int|
        #![trigger after.total(e, s)]
        index < before.data_blocks && 0 <= e < before.recovery_data@.len() && 0 <= s
            < before.symbols_per_block ==> after.total(e, s) == before.total(e, s)
            ^ field::product(
            if s < block.len() {
                block[s]
            } else {
                before.batch_buffers@[before.batch_indices@.len() as int]@[s]
            },
            field::power(
                reed_solomon::par2_constants(before.data_blocks as nat)[index],
                e as nat,
            ),
        )
}

/// The recovery blocks are what the encoder has come to with all data blocks that it has taken.
pub open spec fn are_totals(blocks: Seq<(u32, Vec<u8>)>, encoder: StreamingEncoder) -> bool {
    &&& blocks.len() == encoder.recovery_data@.len()
    &&& forall|e: int|
        0 <= e < blocks.len() ==> (#[trigger] blocks[e]).0 == e as u32 && blocks[e].1@
            == bulk::word_bytes(
            Seq::new(encoder.symbols_per_block as nat, |s: int| encoder.total(e, s)),
        )
}

impl StreamingEncoder {
    pub open spec fn wf(&self) -> bool {
        &&& self.symbols_per_block == self.block_size / 2
        &&& reed_solomon::is_coefficient_matrix(
            self.coeff_matrix@,
            reed_solomon::par2_constants(self.data_blocks as nat),
            self.recovery_data@.len(),
        )
        &&& forall|e: int|
            0 <= e < self.recovery_data@.len() ==> (#[trigger] self.recovery_data@[e])@.len()
                == self.symbols_per_block
        &&& self.batch_buffers@.len() == self.data_batch_size
        &&& forall|i: int|
            0 <= i < self.batch_buffers@.len() ==> (#[trigger] self.batch_buffers@[i])@.len()
                == self.symbols_per_block
        &&& self.batch_indices@.len() <= self.data_batch_size
        &&& forall|i: int|
            0 <= i < self.batch_indices@.len() ==> #[trigger] self.batch_indices@[i]
                < self.data_blocks
        &&& self.recovery_batch_size > 0
    }

    /// A buffer is free for the next data block.
    pub open spec fn ready(&self) -> bool {
        self.wf() && self.batch_indices@.len() < self.data_batch_size
    }

    /// What the buffered block in `slot` adds to element `s` of recovery block `e`.
    pub open spec fn buffered(&self, e: int, s: int) -> spec_fn(int) -> u16 {
        |slot: int|
            field::product(
                self.batch_buffers@[slot]@[s],
                self.coeff_matrix@[self.batch_indices@[slot] as int]@[e],
            )
    }

    /// Element `s` of recovery block `e` with all data blocks that were handed over.
    pub open spec fn total(&self, e: int, s: int) -> u16 {
        self.recovery_data@[e]@[s] ^ sums::xor_sum(
            self.buffered(e, s),
            self.batch_indices@.len(),
        )
    }

    /// Add the buffered data blocks to all recovery blocks.
    fn flush_batch(&mut self)
        requires
            old(self).wf(),
        ensures
            final(self).wf(),
            final(self).batch_indices@.len() == 0,
            final(self).data_blocks == old(self).data_blocks,
            final(self).block_size == old(self).block_size,
            final(self).data_batch_size == old(self).data_batch_size,
            final(self).batch_buffers@ == old(self).batch_buffers@,
            final(self).coeff_matrix@ == old(self).coeff_matrix@,
            final(self).recovery_data@.len() == old(self).recovery_data@.len(),
            forall|e: int, s: int|
                0 <= e < old(self).recovery_data@.len() && 0 <= s < old(self).symbols_per_block
                    ==> #[trigger] final(self).recovery_data@[e]@[s] == old(self).total(e, s),
    {
        let count: usize = self.batch_indices.len();
        let total: usize = self.recovery_data.len();
        let ghost start = *self;
        let ghost symbols = self.symbols_per_block as int;
        let mut batch_start: usize = 0;
        while batch_start < total
            invariant
                start.wf(),
                batch_start <= total,
                total == start.recovery_data@.len(),
                count == start.batch_indices@.len(),
                symbols == start.symbols_per_block,
                self.data_blocks == start.data_blocks,
                self.block_size == start.block_size,
                self.symbols_per_block == start.symbols_per_block,
                self.data_batch_size == start.data_batch_size,
                self.recovery_batch_size == start.recovery_batch_size,
                self.batch_buffers@ == start.batch_buffers@,
                self.batch_indices@ == start.batch_indices@,
                self.coeff_matrix@ == start.coeff_matrix@,
                self.recovery_data@.len() == total,
                forall|e: int|
                    0 <= e < total ==> (#[trigger] self.recovery_data@[e])@.len() == symbols,
                forall|e: int, s: int|
                    0 <= e < batch_start && 0 <= s < symbols
                        ==> #[trigger] self.recovery_data@[e]@[s] == start.total(e, s),
                forall|e: int|
                    batch_start <= e < total ==> (#[trigger] self.recovery_data@[e])@
                        == start.recovery_data@[e]@,
            decreases total - batch_start,
        {
            let batch_end: usize = if total - batch_start <= self.recovery_batch_size {
                total
            } else {
                batch_start + self.recovery_batch_size
            };
            proof {
                assert forall|e: int, s: int|
                    batch_start <= e < batch_end && 0 <= s
                        < symbols implies #[trigger] self.recovery_data@[e]@[s]
                    == start.recovery_data@[e]@[s] ^ sums::xor_sum(start.buffered(e, s), 0) by {
                    field::law_xor(start.recovery_data@[e]@[s], 0, 0);
                    assert(self.recovery_data@[e]@ == start.recovery_data@[e]@);
                }
            }
            for slot in 0..count
                invariant
                    start.wf(),
                    batch_start <= batch_end <= total,
                    total == start.recovery_data@.len(),
                    count == start.batch_indices@.len(),
                    symbols == start.symbols_per_block,
                    self.data_blocks == start.data_blocks,
                    self.block_size == start.block_size,
                    self.symbols_per_block == start.symbols_per_block,
                    self.data_batch_size == start.data_batch_size,
                    self.recovery_batch_size == start.recovery_batch_size,
                    self.batch_buffers@ == start.batch_buffers@,
                    self.batch_indices@ == start.batch_indices@,
                    self.coeff_matrix@ == start.coeff_matrix@,
                    self.recovery_data@.len() == total,
                    forall|e: int|
                        0 <= e < total ==> (#[trigger] self.recovery_data@[e])@.len() == symbols,
                    forall|e: int, s: int|
                        0 <= e < batch_start && 0 <= s < symbols
                            ==> #[trigger] self.recovery_data@[e]@[s] == start.total(e, s),
                    forall|e: int, s: int|
                        batch_start <= e < batch_end && 0 <= s < symbols
                            ==> #[trigger] self.recovery_data@[e]@[s]
                            == start.recovery_data@[e]@[s] ^ sums::xor_sum(
                            start.buffered(e, s),
                            slot as nat,
                        ),
                    forall|e: int|
                        batch_end <= e < total ==> (#[trigger] self.recovery_data@[e])@
                            == start.recovery_data@[e]@,
            {
                assert(start.batch_indices@[slot as int] < start.data_blocks);
                assert(start.batch_buffers@[slot as int]@.len() == symbols);
                let data_idx: usize = self.batch_indices[slot];
                assert(self.coeff_matrix@[data_idx as int]@.len() == total);
                for e in batch_start..batch_end
                    invariant
                        start.wf(),
                        batch_start <= batch_end <= total,
                        total == start.recovery_data@.len(),
                        count == start.batch_indices@.len(),
                        slot < count,
                        data_idx == start.batch_indices@[slot as int],
                        data_idx < start.data_blocks,
                        start.coeff_matrix@[data_idx as int]@.len() == total,
                        start.batch_buffers@[slot as int]@.len() == symbols,
                        symbols == start.symbols_per_block,
                        self.data_blocks == start.data_blocks,
                        self.block_size == start.block_size,
                        self.symbols_per_block == start.symbols_per_block,
                        self.data_batch_size == start.data_batch_size,
                        self.recovery_batch_size == start.recovery_batch_size,
                        self.batch_buffers@ == start.batch_buffers@,
                        self.batch_indices@ == start.batch_indices@,
                        self.coeff_matrix@ == start.coeff_matrix@,
                        self.recovery_data@.len() == total,
                        forall|k: int|
                            0 <= k < total ==> (#[trigger] self.recovery_data@[k])@.len()
                                == symbols,
                        forall|k: int, s: int|
                            0 <= k < batch_start && 0 <= s < symbols
                                ==> #[trigger] self.recovery_data@[k]@[s] == start.total(k, s),
                        forall|k: int, s: int|
                            batch_start <= k < e && 0 <= s < symbols
                                ==> #[trigger] self.recovery_data@[k]@[s]
                                == start.recovery_data@[k]@[s] ^ sums::xor_sum(
                                start.buffered(k, s),
                                (slot + 1) as nat,
                            ),
                        forall|k: int, s: int|
                            e <= k < batch_end && 0 <= s < symbols
                                ==> #[trigger] self.recovery_data@[k]@[s]
                                == start.recovery_data@[k]@[s] ^ sums::xor_sum(
                                start.buffered(k, s),
                                slot as nat,
                            ),
                        forall|k: int|
                            batch_end <= k < total ==> (#[trigger] self.recovery_data@[k])@
                                == start.recovery_data@[k]@,
                {
                    let ghost before = self.recovery_data@;
                    let coeff: u16 = self.coeff_matrix[data_idx][e];
                    gf_muladd(
                        self.recovery_data[e].as_mut_slice(),
                        self.batch_buffers[slot].as_slice(),
                        coeff,
                    );
                    proof {
                        assert forall|s: int|
                            0 <= s < symbols implies #[trigger] self.recovery_data@[e as int]@[s]
                            == start.recovery_data@[e as int]@[s] ^ sums::xor_sum(
                            start.buffered(e as int, s),
                            (slot + 1) as nat,
                        ) by {
                            let f = start.buffered(e as int, s);
                            let w = sums::xor_sum(f, slot as nat);
                            assert(before[e as int]@[s] == start.recovery_data@[e as int]@[s] ^ w);
                            assert(f(slot as int) == field::product(
                                start.batch_buffers@[slot as int]@[s],
                                coeff,
                            ));
                            field::law_xor(
                                start.recovery_data@[e as int]@[s],
                                w,
                                f(slot as int),
                            );
                        }
                        assert forall|k: int| 0 <= k < total implies (
                        #[trigger] self.recovery_data@[k])@.len() == symbols by {
                            assert(before[k]@.len() == symbols);
                        }
                    }
                }
            }
            batch_start = batch_end;
        }
        self.batch_indices.clear();
    }

    /// Hand over a data block. The index of a block beyond the last one is ignored. Of a block
    /// shorter than the others, the rest of the buffer counts as it is.
    pub fn process_block(&mut self, data_block_idx: usize, block_data_u16: &[u16])
        requires
            old(self).ready(),
            data_block_idx < old(self).data_blocks ==> block_data_u16@.len()
                <= old(self).symbols_per_block,
            old(self).data_batch_size > 0,
        ensures
            takes(*old(self), *final(self), data_block_idx as int, block_data_u16@),
    {
        if data_block_idx >= self.data_blocks {
            return;
        }
        let ghost start = *self;
        let ghost symbols = self.symbols_per_block as int;
        let slot: usize = self.batch_indices.len();
        let n: usize = block_data_u16.len();
        assert(self.batch_buffers@[slot as int]@.len() == symbols);
        for i in 0..n
            invariant
                start.ready(),
                symbols == start.symbols_per_block,
                n == block_data_u16@.len(),
                n <= symbols,
                slot == start.batch_indices@.len(),
                self.data_blocks == start.data_blocks,
                self.block_size == start.block_size,
                self.symbols_per_block == start.symbols_per_block,
                self.data_batch_size == start.data_batch_size,
                self.recovery_batch_size == start.recovery_batch_size,
                self.batch_indices@ == start.batch_indices@,
                self.coeff_matrix@ == start.coeff_matrix@,
                self.recovery_data@ == start.recovery_data@,
                self.batch_buffers@.len() == start.batch_buffers@.len(),
                self.batch_buffers@[slot as int]@.len() == symbols,
                forall|k: int|
                    0 <= k < self.batch_buffers@.len() && k != slot
                        ==> #[trigger] self.batch_buffers@[k] == start.batch_buffers@[k],
                forall|s: int|
                    0 <= s < i ==> #[trigger] self.batch_buffers@[slot as int]@[s]
                        == block_data_u16@[s],
                forall|s: int|
                    i <= s < symbols ==> #[trigger] self.batch_buffers@[slot as int]@[s]
                        == start.batch_buffers@[slot as int]@[s],
        {
            self.batch_buffers[slot][i] = block_data_u16[i];
        }
        self.batch_indices.push(data_block_idx);
        let ghost filled = *self;
        proof {
            assert forall|k: int| 0 <= k < self.batch_buffers@.len() implies (
            #[trigger] self.batch_buffers@[k])@.len() == symbols by {
                if k != slot {
                    assert(self.batch_buffers@[k] == start.batch_buffers@[k]);
                    assert(start.batch_buffers@[k]@.len() == symbols);
                }
            }
            assert forall|k: int| 0 <= k < self.batch_indices@.len() implies
                #[trigger] self.batch_indices@[k] < self.data_blocks by {
                if k < slot {
                    assert(start.batch_indices@[k] < start.data_blocks);
                }
            }
            assert(self.wf());
            assert forall|e: int, s: int|
                0 <= e < start.recovery_data@.len() && 0 <= s < symbols implies
                #[trigger] filled.total(e, s) == start.total(e, s) ^ field::product(
                if s < n {
                    block_data_u16@[s]
                } else {
                    start.batch_buffers@[slot as int]@[s]
                },
                field::power(
                    reed_solomon::par2_constants(start.data_blocks as nat)[data_block_idx as int],
                    e as nat,
                ),
            ) by {
                let f = filled.buffered(e, s);
                let g = start.buffered(e, s);
                assert forall|k: int| 0 <= k < slot implies #[trigger] f(k) == g(k) by {
                    assert(filled.batch_buffers@[k] == start.batch_buffers@[k]);
                    assert(filled.batch_indices@[k] == start.batch_indices@[k]);
                }
                sums::lemma_sum_equal(f, g, slot as nat);
                let w = sums::xor_sum(f, slot as nat);
                assert(sums::xor_sum(f, (slot + 1) as nat) == w ^ f(slot as int));
                assert(filled.coeff_matrix@[data_block_idx as int]@[e] == field::power(
                    reed_solomon::par2_constants(start.data_blocks as nat)[data_block_idx as int],
                    e as nat,
                ));
                field::law_xor(start.recovery_data@[e]@[s], w, f(slot as int));
            }
        }
        if self.batch_indices.len() >= self.data_batch_size {
            self.flush_batch();
            proof {
                assert forall|e: int, s: int|
                    0 <= e < start.recovery_data@.len() && 0 <= s < symbols implies
                    #[trigger] self.total(e, s) == filled.total(e, s) by {
                    assert(self.recovery_data@[e]@[s] == filled.total(e, s));
                    field::law_xor(self.recovery_data@[e]@[s], 0, 0);
                }
            }
        }
    }

    /// Finish and return the recovery blocks with their exponents.
    pub fn finalize(self) -> (r: Vec<(u32, Vec<u8>)>)
        requires
            self.wf(),
        ensures
            are_totals(r@, self),
    {
        let ghost start = self;
        let mut encoder = self;
        encoder.flush_batch();
        let n: usize = encoder.recovery_data.len();
        let mut r: Vec<(u32, Vec<u8>)> = Vec::with_capacity(n);
        for e in 0..n
            invariant
                encoder.wf(),
                n == encoder.recovery_data@.len(),
                n == start.recovery_data@.len(),
                encoder.symbols_per_block == start.symbols_per_block,
                r@.len() == e,
                forall|k: int, s: int|
                    0 <= k < n && 0 <= s < start.symbols_per_block
                        ==> #[trigger] encoder.recovery_data@[k]@[s] == start.total(k, s),
                forall|k: int|
                    0 <= k < e ==> (#[trigger] r@[k]).0 == k as u32 && r@[k].1@
                        == bulk::word_bytes(
                        Seq::new(start.symbols_per_block as nat, |s: int| start.total(k, s)),
                    ),
        {
            assert(encoder.recovery_data@[e as int]@.len() == start.symbols_per_block);
            assert(encoder.recovery_data@[e as int]@ =~= Seq::new(
                start.symbols_per_block as nat,
                |s: int| start.total(e as int, s),
            ));
            r.push((e as u32, reed_solomon::bytes_of(&encoder.recovery_data[e])));
        }
        r
    }
}

impl Par2ReedSolomon {
    /// Create an encoder that takes the data blocks one after the other.
    pub fn create_streaming_encoder(
        &self,
        recovery_blocks: usize,
        block_size: usize,
        chunk_size: usize,
        num_cpus: usize,
    ) -> (r: Result<StreamingEncoder, String>)
        requires
            self.wf(),
            chunk_size == 0 ==> block_size % 2 != 0,
            num_cpus > 0,
        ensures
            r is Ok <==> block_size % 2 == 0 && chunk_size % 2 == 0 && chunk_size <= block_size,
            r matches Ok(encoder) ==> is_fresh(
                encoder,
                self.data_blocks,
                recovery_blocks,
                block_size,
            ),
            r matches Err(message) ==> message@ == (if block_size % 2 != 0 {
                "Block size must be multiple of 2"@
            } else if chunk_size % 2 != 0 {
                "Chunk size must be multiple of 2"@
            } else {
                "Chunk size cannot exceed block size"@
            }),
    {
        if block_size % 2 != 0 {
            return Err("Block size must be multiple of 2".to_owned());
        }
        if chunk_size % 2 != 0 {
            return Err("Chunk size must be multiple of 2".to_owned());
        }
        if chunk_size > block_size {
            return Err("Chunk size cannot exceed block size".to_owned());
        }
        let symbols: usize = block_size / 2;
        let coeff_matrix = reed_solomon::coefficient_matrix(&self.constants, recovery_blocks);
        let recovery_data = zero_rows(recovery_blocks, symbols);
        let data_batch_size: usize = optimal_data_batch_size(recovery_blocks, num_cpus);
        let recovery_batch_size: usize = optimal_recovery_batch_size(recovery_blocks, num_cpus);
        let batch_buffers = zero_rows(data_batch_size, symbols);
        let encoder = StreamingEncoder {
            data_blocks: self.data_blocks,
            block_size,
            symbols_per_block: symbols,
            coeff_matrix,
            recovery_data,
            batch_buffers,
            batch_indices: Vec::new(),
            data_batch_size,
            recovery_batch_size,
        };
        proof {
            assert forall|e: int, s: int| 0 <= e < recovery_blocks && 0 <= s < symbols implies
                #[trigger] encoder.total(e, s) == 0 by {
                field::law_xor(0, 0, 0);
                assert(encoder.recovery_data@[e]@[s] == 0);
            }
        }
        Ok(encoder)
    }
}

/// Rows of zeros.
fn zero_rows(count: usize, symbols: usize) -> (r: Vec<Vec<u16>>)
    ensures
        r@.len() == count,
        forall|i: int| 0 <= i < count ==> (#[trigger] r@[i])@.len() == symbols,
        forall|i: int, s: int|
            0 <= i < count && 0 <= s < symbols ==> #[trigger] r@[i]@[s] == 0,
{
    let mut r: Vec<Vec<u16>> = Vec::with_capacity(count);
    for i in 0..count
        invariant
            r@.len() == i,
            forall|k: int| 0 <= k < i ==> (#[trigger] r@[k])@.len() == symbols,
            forall|k: int, s: int|
                0 <= k < i && 0 <= s < symbols ==> #[trigger] r@[k]@[s] == 0,
    {
        let row: Vec<u16> = vec![0u16; symbols];
        r.push(row);
    }
    r
}

/// The encoder goes through the states, taking the blocks one after the other.
pub open spec fn goes_through(
    states: Seq<StreamingEncoder>,
    calls: Seq<(int, Seq<u16>)>,
) -> bool {
    &&& states.len() == calls.len() + 1
    &&& forall|k: int|
        0 <= k < calls.len() ==> takes(
            states[k],
            states[k + 1],
            (#[trigger] calls[k]).0,
            calls[k].1,
        )
}

/// Block `i` is among the first `k` that were handed over.
pub open spec fn has_come(calls: Seq<(int, Seq<u16>)>, k: int, i: int) -> bool {
    exists|j: int| 0 <= j < k && (#[trigger] calls[j]).0 == i
}

/// Each of the data blocks is handed over once, in any order. Blocks beyond the last one may be handed
/// over too.
pub open spec fn each_comes_once(calls: Seq<(int, Seq<u16>)>, data: Seq<Seq<u16>>) -> bool {
    &&& forall|k: int| 0 <= k < calls.len() ==> 0 <= (#[trigger] calls[k]).0
    &&& forall|k: int|
        0 <= k < calls.len() && (#[trigger] calls[k]).0 < data.len() ==> calls[k].1
            == data[calls[k].0]
    &&& forall|j: int, k: int|
        0 <= j < k < calls.len() && (#[trigger] calls[j]).0 < data.len() ==> calls[j].0 != (
        #[trigger] calls[k]).0
    &&& forall|i: int| 0 <= i < data.len() ==> #[trigger] has_come(calls, calls.len() as int, i)
}

/// What the blocks that have come add to element `s` of recovery block `e`.
spec fn come_terms(
    calls: Seq<(int, Seq<u16>)>,
    data: Seq<Seq<u16>>,
    k: int,
    e: int,
    s: int,
) -> spec_fn(int) -> u16 {
    |i: int|
        if has_come(calls, k, i) {
            field::product(
                data[i][s],
                field::power(reed_solomon::par2_constants(data.len())[i], e as nat),
            )
        } else {
            0
        }
}

proof fn lemma_total_of_come(
    states: Seq<StreamingEncoder>,
    calls: Seq<(int, Seq<u16>)>,
    data: Seq<Seq<u16>>,
    recovery_blocks: usize,
    block_size: usize,
    k: int,
    e: int,
    s: int,
)
    requires
        goes_through(states, calls),
        each_comes_once(calls, data),
        data.len() <= usize::MAX,
        is_fresh(states[0], data.len() as usize, recovery_blocks, block_size),
        forall|i: int| 0 <= i < data.len() ==> (#[trigger] data[i]).len() == block_size / 2,
        0 <= k <= calls.len(),
        0 <= e < recovery_blocks,
        0 <= s < block_size / 2,
    ensures
        states[k].wf(),
        states[k].data_blocks == data.len(),
        states[k].block_size == block_size,
        states[k].recovery_data@.len() == recovery_blocks,
        states[k].total(e, s) == sums::xor_sum(come_terms(calls, data, k, e, s), data.len()),
    decreases k,
{
    let n = data.len();
    let now = come_terms(calls, data, k, e, s);
    if k == 0 {
        assert forall|i: int| 0 <= i < n implies #[trigger] now(i) == 0 by {}
        sums::lemma_sum_zero(now, n);
    } else {
        lemma_total_of_come(
            states,
            calls,
            data,
            recovery_blocks,
            block_size,
            k - 1,
            e,
            s,
        );
        let before = come_terms(calls, data, k - 1, e, s);
        let (index, block) = calls[k - 1];
        assert(takes(states[k - 1], states[k - 1 + 1], calls[k - 1].0, calls[k - 1].1));
        assert forall|i: int| i != index implies has_come(calls, k, i) == has_come(
            calls,
            k - 1,
            i,
        ) by {
            if has_come(calls, k, i) {
                let j = choose|j: int| 0 <= j < k && (#[trigger] calls[j]).0 == i;
                assert(0 <= j < k - 1 && calls[j].0 == i);
            }
            if has_come(calls, k - 1, i) {
                let j = choose|j: int| 0 <= j < k - 1 && (#[trigger] calls[j]).0 == i;
                assert(0 <= j < k && calls[j].0 == i);
            }
        }
        if index >= n {
            assert forall|i: int| 0 <= i < n implies #[trigger] now(i) == before(i) by {}
            sums::lemma_sum_equal(now, before, n);
        } else {
            let term = field::product(
                data[index][s],
                field::power(reed_solomon::par2_constants(n)[index], e as nat),
            );
            let single = |i: int|
                if i == index {
                    term
                } else {
                    0
                };
            let both = |i: int| before(i) ^ single(i);
            assert(!has_come(calls, k - 1, index));
            assert(has_come(calls, k, index)) by {
                assert(calls[k - 1].0 == index);
            }
            assert forall|i: int| 0 <= i < n implies #[trigger] now(i) == both(i) by {
                field::law_xor(before(i), 0, 0);
                field::law_xor(term, 0, 0);
                assert(single(i) == if i == index { term } else { 0 });
            }
            sums::lemma_sum_equal(now, both, n);
            sums::lemma_sum_add(before, single, n);
            sums::lemma_sum_single(single, n, index);
            assert(data[index].len() == block_size / 2);
            assert(states[k].total(e, s) == states[k - 1].total(e, s) ^ term);
        }
    }
}

/// The streaming encoder gives what encoding all data blocks at once gives, in whatever order they are
/// handed over, and whatever is handed over beyond them.
pub proof fn law_streaming_agrees_with_encoding(
    rs: Par2ReedSolomon,
    blocks: Seq<Vec<u8>>,
    recovery_blocks: usize,
    block_size: usize,
    states: Seq<StreamingEncoder>,
    calls: Seq<(int, Seq<u16>)>,
    streamed: Seq<(u32, Vec<u8>)>,
    encoded: Seq<(u32, Vec<u8>)>,
)
    requires
        rs.wf(),
        blocks.len() == rs.data_blocks,
        block_size % 2 == 0,
        reed_solomon::all_sized(blocks, block_size as nat),
        is_fresh(states[0], rs.data_blocks, recovery_blocks, block_size),
        goes_through(states, calls),
        each_comes_once(calls, reed_solomon::block_words(blocks)),
        are_totals(streamed, states.last()),
        reed_solomon::are_recovery_blocks(
            encoded,
            rs.constants@,
            reed_solomon::block_words(blocks),
            recovery_blocks as nat,
            (block_size / 2) as nat,
        ),
    ensures
        streamed.len() == encoded.len(),
        forall|e: int|
            0 <= e < streamed.len() ==> (#[trigger] streamed[e]).0 == encoded[e].0
                && streamed[e].1@ == encoded[e].1@,
{
    let data = reed_solomon::block_words(blocks);
    let n = data.len();
    let k = calls.len() as int;
    let symbols = (block_size / 2) as nat;
    let last = states.last();
    assert(last == states[k]);
    assert forall|i: int| 0 <= i < n implies (#[trigger] data[i]).len() == block_size / 2 by {
        assert(blocks[i]@.len() == block_size);
    }
    lemma_last_shape(states, calls, k);
    assert forall|e: int| 0 <= e < streamed.len() implies (#[trigger] streamed[e]).0
        == encoded[e].0 && streamed[e].1@ == encoded[e].1@ by {
        let got = Seq::new(last.symbols_per_block as nat, |s: int| last.total(e, s));
        let want = reed_solomon::recovery_words(rs.constants@, data, e as nat, symbols);
        assert forall|s: int| 0 <= s < symbols implies got[s] == want[s] by {
            lemma_total_of_come(states, calls, data, recovery_blocks, block_size, k, e, s);
            let terms = come_terms(calls, data, k, e, s);
            let all = reed_solomon::symbol_terms(rs.constants@, data, e as nat, s);
            assert forall|i: int| 0 <= i < n implies #[trigger] terms(i) == all(i) by {
                assert(has_come(calls, k, i));
            }
            sums::lemma_sum_equal(terms, all, n);
        }
        assert(got =~= want);
        assert(encoded[e].0 == e as u32);
    }
}

proof fn lemma_last_shape(
    states: Seq<StreamingEncoder>,
    calls: Seq<(int, Seq<u16>)>,
    k: int,
)
    requires
        goes_through(states, calls),
        states[0].wf(),
        0 <= k <= calls.len(),
    ensures
        states[k].wf(),
        states[k].block_size == states[0].block_size,
        states[k].recovery_data@.len() == states[0].recovery_data@.len(),
    decreases k,
{
    if k > 0 {
        lemma_last_shape(states, calls, k - 1);
        assert(takes(states[k - 1], states[k - 1 + 1], calls[k - 1].0, calls[k - 1].1));
    }
}

} // verus!
