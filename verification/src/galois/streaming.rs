//! Adding up whole blocks in three levels: chunks that are read at once, regions that fit in the
//! cache, and elements that are multiplied together.

use vstd::prelude::*;
use vstd::string::*;

use crate::error::{Par2Error, Result};
use crate::galois::bulk;
use crate::galois::field;
use crate::galois::ops;
use crate::galois::ops::{bytes_to_u16_simd, supports_shuffle2x};
use crate::galois::region::{gf_muladd_regions_of, region_size_bytes};
use crate::galois::simd::kernel;
use crate::galois::simd::{GaloisSimdStrategy, SimdRegistry};
use crate::galois::sums;
use crate::text;

verus! {

/// How blocks are processed.
#[derive(Debug, Clone, Copy)]
pub struct StreamingConfig {
    /// Size of the chunks that are read at once, in bytes.
    pub chunk_size: usize,
    /// Size of the regions that fit in the cache, in bytes.
    pub region_size: usize,
    /// Number of sources that are taken together.
    pub source_batch_size: usize,
}

/// The message for chunks that are smaller than a region.
pub open spec fn chunk_message(chunk_size: nat, region_size: nat) -> Seq<char> {
    "chunk_size ("@ + text::decimal_digits(chunk_size) + ") must be >= region_size ("@
        + text::decimal_digits(region_size) + ")"@
}

impl StreamingConfig {
    /// Chunks of 4 MiB, regions of the size that is configured, 8 sources together.
    pub fn with_region_size(configured: Option<usize>) -> (r: StreamingConfig)
        ensures
            r.chunk_size == 4194304,
            r.region_size == (match configured {
                Some(v) => if v >= 4096 && v % 2 == 0 {
                    v
                } else {
                    crate::galois::region::REGION_SIZE_BYTES
                },
                None => crate::galois::region::REGION_SIZE_BYTES,
            }),
            r.source_batch_size == 8,
    {
        StreamingConfig {
            chunk_size: 4194304,
            region_size: region_size_bytes(configured),
            source_batch_size: 8,
        }
    }

    /// Check that a chunk holds a region, and that regions hold whole elements.
    pub fn validate(&self) -> (r: Result<()>)
        ensures
            r is Ok <==> self.chunk_size >= self.region_size && self.region_size % 2 == 0,
            r matches Err(e) ==> e matches Par2Error::InvalidFormat(m) && m@ == (
            if self.chunk_size < self.region_size {
                chunk_message(self.chunk_size as nat, self.region_size as nat)
            } else {
                "region_size must be even (u16 alignment)"@
            }),
    {
        if self.chunk_size < self.region_size {
            let mut message: String = "chunk_size (".to_owned();
            message.append(text::decimal(self.chunk_size as u64).as_str());
            message.append(") must be >= region_size (");
            message.append(text::decimal(self.region_size as u64).as_str());
            message.append(")");
            return Err(Par2Error::InvalidFormat(message));
        }
        if self.region_size % 2 != 0 {
            return Err(
                Par2Error::InvalidFormat("region_size must be even (u16 alignment)".to_owned()),
            );
        }
        Ok(())
    }
}

impl Default for StreamingConfig {
    fn default() -> (r: StreamingConfig)
        ensures
            r.chunk_size == 4194304,
            r.region_size == crate::galois::region::REGION_SIZE_BYTES,
            r.source_batch_size == 8,
    {
        StreamingConfig::with_region_size(None)
    }
}

/// Adds up whole blocks.
pub struct StreamingProcessor {
    pub config: StreamingConfig,
    /// Whether the selected strategy works on the shuffle2x layout.
    pub use_shuffle2x: bool,
}

/// The elements of the sources that are used.
pub open spec fn source_words(sources: Seq<Vec<u8>>, indices: Seq<usize>) -> Seq<Seq<u16>> {
    Seq::new(indices.len(), |i: int| bulk::words(sources[indices[i] as int]@))
}

/// What is needed to add up the sources.
pub open spec fn can_process(
    config: StreamingConfig,
    destinations: Seq<Vec<u16>>,
    indices: Seq<usize>,
    coefficients: Seq<&[u16]>,
    block_size: int,
    sources: Seq<Vec<u8>>,
) -> bool {
    &&& config.region_size >= 2
    &&& config.source_batch_size > 0
    &&& config.chunk_size >= 2
    &&& block_size % 2 == 0
    &&& config.chunk_size % 2 == 0 || block_size <= config.chunk_size
    &&& destinations.len() <= coefficients.len()
    &&& forall|d: int|
        0 <= d < destinations.len() ==> block_size / 2 <= (#[trigger] destinations[d])@.len()
    &&& forall|d: int|
        0 <= d < coefficients.len() ==> indices.len() <= (#[trigger] coefficients[d])@.len()
    &&& forall|i: int| 0 <= i < indices.len() ==> #[trigger] indices[i] < sources.len()
    &&& forall|i: int|
        0 <= i < indices.len() ==> block_size <= sources[#[trigger] indices[i] as int]@.len()
}

/// The elements of a chunk of a source.
fn chunk_words(source: &Vec<u8>, start: usize, count: usize) -> (r: Vec<u16>)
    requires
        2 * (start + count) <= source@.len(),
    ensures
        r@ == bulk::words(source@).subrange(start as int, start + count),
{
    let n: usize = source.len();
    let part: &[u8] = &source.as_slice()[2 * start..2 * (start + count)];
    let mut r: Vec<u16> = vec![0u16; count];
    bytes_to_u16_simd(part, r.as_mut_slice());
    proof {
        let whole = bulk::words(source@);
        assert forall|s: int| 0 <= s < count implies #[trigger] r@[s] == whole[start + s] by {
            assert(part@[2 * s] == source@[2 * (start + s)]);
            assert(part@[2 * s + 1] == source@[2 * (start + s) + 1]);
        }
        assert(r@ =~= whole.subrange(start as int, start + count));
    }
    r
}

/// Add a batch of sources to the rows of a chunk.
fn add_batch(
    rows: &mut Vec<Vec<u16>>,
    words: &Vec<Vec<u16>>,
    coefficients: &[&[u16]],
    from: usize,
    count: usize,
    region_u16s: usize,
)
    requires
        region_u16s > 0,
        old(rows)@.len() <= coefficients@.len(),
        forall|d: int| 0 <= d < old(rows)@.len() ==> (#[trigger] old(rows)@[d])@.len() == count,
        forall|i: int| 0 <= i < words@.len() ==> (#[trigger] words@[i])@.len() == count,
        forall|d: int|
            0 <= d < coefficients@.len() ==> from + words@.len() <= (
            #[trigger] coefficients@[d])@.len(),
    ensures
        final(rows)@.len() == old(rows)@.len(),
        forall|d: int|
            0 <= d < old(rows)@.len() ==> (#[trigger] final(rows)@[d])@.len() == count,
        forall|d: int, s: int|
            0 <= d < old(rows)@.len() && 0 <= s < count ==> #[trigger] final(rows)@[d]@[s]
                == old(rows)@[d]@[s] ^ sums::xor_sum(
                |i: int| field::product(words@[i]@[s], coefficients@[d]@[from + i]),
                words@.len(),
            ),
{
    let n: usize = words.len();
    let m: usize = rows.len();
    let mut sources: Vec<&[u16]> = Vec::with_capacity(n);
    for i in 0..n
        invariant
            n == words@.len(),
            sources@.len() == i,
            forall|k: int| 0 <= k < i ==> (#[trigger] sources@[k])@ == words@[k]@,
    {
        sources.push(words[i].as_slice());
    }
    let mut parts: Vec<&[u16]> = Vec::with_capacity(m);
    for d in 0..m
        invariant
            m <= coefficients@.len(),
            n == words@.len(),
            forall|d: int|
                0 <= d < coefficients@.len() ==> from + n <= (#[trigger] coefficients@[d])@.len(),
            parts@.len() == d,
            forall|k: int|
                0 <= k < d ==> (#[trigger] parts@[k])@ == coefficients@[k]@.subrange(
                    from as int,
                    from + n,
                ),
    {
        assert(from + n <= coefficients@[d as int]@.len());
        let row: &[u16] = coefficients[d];
        let length: usize = row.len();
        parts.push(&row[from..from + n]);
    }
    let ghost before = rows@;
    let ghost views = bulk::slice_views(sources@);
    proof {
        let rv = bulk::row_views(rows@);
        let crefs = bulk::slice_views(parts@);
        assert forall|d: int| 0 <= d < m implies count <= (#[trigger] rv[d]).len() by {
            assert(rows@[d]@.len() == count);
        }
        assert forall|i: int| 0 <= i < views.len() implies count <= (#[trigger] views[i]).len() by {
            assert(sources@[i]@ == words@[i]@);
        }
        assert forall|d: int| 0 <= d < m implies views.len() <= (#[trigger] crefs[d]).len() by {
            assert(parts@[d]@.len() == n);
        }
        assert(kernel::region_covered(rv, views, crefs, 0, count as int));
    }
    gf_muladd_regions_of(
        rows.as_mut_slice(),
        sources.as_slice(),
        parts.as_slice(),
        count,
        region_u16s,
    );
    proof {
        assert forall|d: int| 0 <= d < m implies (#[trigger] rows@[d])@.len() == count by {
            assert(before[d]@.len() == count);
        }
        assert forall|d: int, s: int| 0 <= d < m && 0 <= s < count implies #[trigger] rows@[d]@[s]
            == before[d]@[s] ^ sums::xor_sum(
            |i: int| field::product(words@[i]@[s], coefficients@[d]@[from + i]),
            n as nat,
        ) by {
            assert(before[d]@.len() == count);
            let f = |i: int| bulk::term(views, parts@[d]@, i, s);
            let g = |i: int| field::product(words@[i]@[s], coefficients@[d]@[from + i]);
            assert forall|i: int| 0 <= i < n implies #[trigger] f(i) == g(i) by {
                assert(views[i] == words@[i]@);
                assert(words@[i]@.len() == count);
                assert(parts@[d]@[i] == coefficients@[d]@[from + i]);
            }
            sums::lemma_sum_equal(f, g, n as nat);
            assert(bulk::weighted_sum(views, parts@[d]@, n as nat, s) == sums::xor_sum(
                f,
                n as nat,
            ));
        }
    }
}

/// Term `i` of element `s` of a row.
spec fn row_term(words: Seq<Seq<u16>>, coeffs: Seq<u16>, s: int) -> spec_fn(int) -> u16 {
    |i: int| field::product(words[i][s], coeffs[i])
}

/// Element `s` of a row with the first `n` sources added.
spec fn row_with(old_row: Seq<u16>, words: Seq<Seq<u16>>, coeffs: Seq<u16>, n: nat, s: int) -> u16 {
    old_row[s] ^ sums::xor_sum(row_term(words, coeffs, s), n)
}

/// The part of a row that a chunk covers.
fn take_chunk(row: &Vec<u16>, start: usize, count: usize) -> (r: Vec<u16>)
    requires
        start + count <= row@.len(),
    ensures
        r@ == row@.subrange(start as int, start + count),
{
    let n: usize = row.len();
    vstd::slice::slice_to_vec(&row.as_slice()[start..start + count])
}

impl StreamingProcessor {
    /// Create a processor that works as is usual.
    pub fn new<S: GaloisSimdStrategy>(registry: &SimdRegistry<S>) -> (r: StreamingProcessor)
        requires
            registry.wf(),
        ensures
            r.config.chunk_size == 4194304,
            r.config.region_size == crate::galois::region::REGION_SIZE_BYTES,
            r.config.source_batch_size == 8,
            r.use_shuffle2x == ops::shuffling(*registry),
    {
        StreamingProcessor {
            config: StreamingConfig::with_region_size(None),
            use_shuffle2x: supports_shuffle2x(registry),
        }
    }

    /// Create a processor that works as configured. It is an error if the configuration is not
    /// valid.
    pub fn with_config<S: GaloisSimdStrategy>(
        registry: &SimdRegistry<S>,
        config: StreamingConfig,
    ) -> (r: Result<StreamingProcessor>)
        requires
            registry.wf(),
        ensures
            r is Ok <==> config.chunk_size >= config.region_size && config.region_size % 2 == 0,
            r matches Ok(p) ==> p.config == config && p.use_shuffle2x == ops::shuffling(*registry),
            r matches Err(e) ==> e matches Par2Error::InvalidFormat(m) && m@ == (
            if config.chunk_size < config.region_size {
                chunk_message(config.chunk_size as nat, config.region_size as nat)
            } else {
                "region_size must be even (u16 alignment)"@
            }),
    {
        match config.validate() {
            Ok(_) => Ok(
                StreamingProcessor { config, use_shuffle2x: supports_shuffle2x(registry) },
            ),
            Err(e) => Err(e),
        }
    }

    /// Add a chunk of each source, times its coefficient, to the same chunk of each destination.
    fn process_chunk(
        &self,
        destinations: &mut [Vec<u16>],
        source_indices: &[usize],
        coefficients: &[&[u16]],
        start: usize,
        count: usize,
        sources: &[Vec<u8>],
        Ghost(block_size): Ghost<int>,
    )
        requires
            can_process(
                self.config,
                old(destinations)@,
                source_indices@,
                coefficients@,
                block_size,
                sources@,
            ),
            2 * (start + count) <= block_size,
        ensures
            final(destinations)@.len() == old(destinations)@.len(),
            forall|d: int|
                0 <= d < old(destinations)@.len() ==> (#[trigger] final(destinations)@[d])@.len()
                    == old(destinations)@[d]@.len(),
            forall|d: int, s: int|
                0 <= d < old(destinations)@.len() && 0 <= s < old(destinations)@[d]@.len()
                    ==> #[trigger] final(destinations)@[d]@[s] == (if start <= s < start + count {
                    row_with(
                        old(destinations)@[d]@,
                        source_words(sources@, source_indices@),
                        coefficients@[d]@,
                        source_indices@.len(),
                        s,
                    )
                } else {
                    old(destinations)@[d]@[s]
                }),
    {
        let n: usize = source_indices.len();
        let m: usize = destinations.len();
        let ghost before = destinations@;
        let ghost words = source_words(sources@, source_indices@);
        let mut rows: Vec<Vec<u16>> = Vec::with_capacity(m);
        for d in 0..m
            invariant
                m == destinations@.len(),
                destinations@ == before,
                2 * (start + count) <= block_size,
                forall|k: int|
                    0 <= k < before.len() ==> block_size / 2 <= (#[trigger] before[k])@.len(),
                rows@.len() == d,
                forall|k: int|
                    0 <= k < d ==> (#[trigger] rows@[k])@ == before[k]@.subrange(
                        start as int,
                        start + count,
                    ),
        {
            assert(block_size / 2 <= before[d as int]@.len());
            rows.push(take_chunk(&destinations[d], start, count));
        }
        let mut done: usize = 0;
        proof {
            assert forall|d: int, s: int| 0 <= d < m && 0 <= s < count implies
                #[trigger] rows@[d]@[s] == row_with(
                before[d]@,
                words,
                coefficients@[d]@,
                0,
                start + s,
            ) by {
                field::law_xor(before[d]@[start + s], 0, 0);
                assert(rows@[d]@ == before[d]@.subrange(start as int, start + count));
            }
            assert forall|d: int| 0 <= d < m implies (#[trigger] rows@[d])@.len() == count by {
                assert(block_size / 2 <= before[d]@.len());
            }
        }
        while done < n
            invariant
                done <= n,
                n == source_indices@.len(),
                m == before.len(),
                rows@.len() == m,
                words == source_words(sources@, source_indices@),
                can_process(
                    self.config,
                    before,
                    source_indices@,
                    coefficients@,
                    block_size,
                    sources@,
                ),
                2 * (start + count) <= block_size,
                forall|d: int| 0 <= d < m ==> (#[trigger] rows@[d])@.len() == count,
                forall|d: int, s: int|
                    0 <= d < m && 0 <= s < count ==> #[trigger] rows@[d]@[s] == row_with(
                        before[d]@,
                        words,
                        coefficients@[d]@,
                        done as nat,
                        start + s,
                    ),
            decreases n - done,
        {
            let batch: usize = if n - done <= self.config.source_batch_size {
                n - done
            } else {
                self.config.source_batch_size
            };
            let mut buffers: Vec<Vec<u16>> = Vec::with_capacity(batch);
            for i in 0..batch
                invariant
                    done + batch <= n,
                    n == source_indices@.len(),
                    2 * (start + count) <= block_size,
                    words == source_words(sources@, source_indices@),
                    forall|k: int| 0 <= k < n ==> #[trigger] source_indices@[k] < sources@.len(),
                    forall|k: int|
                        0 <= k < n ==> block_size <= sources@[#[trigger] source_indices@[
                            k
                        ] as int]@.len(),
                    buffers@.len() == i,
                    forall|k: int|
                        0 <= k < i ==> (#[trigger] buffers@[k])@ == words[done + k].subrange(
                            start as int,
                            start + count,
                        ),
                    forall|k: int| 0 <= k < i ==> (#[trigger] buffers@[k])@.len() == count,
            {
                let index: usize = source_indices[done + i];
                assert(source_indices@[done + i] < sources@.len());
                buffers.push(chunk_words(&sources[index], start, count));
            }
            let ghost prior = rows@;
            add_batch(
                &mut rows,
                &buffers,
                coefficients,
                done,
                count,
                self.config.region_size / 2,
            );
            proof {
                assert forall|d: int, s: int| 0 <= d < m && 0 <= s < count implies
                    #[trigger] rows@[d]@[s] == row_with(
                    before[d]@,
                    words,
                    coefficients@[d]@,
                    (done + batch) as nat,
                    start + s,
                ) by {
                    let f = row_term(words, coefficients@[d]@, start + s);
                    let g = |i: int|
                        field::product(buffers@[i]@[s], coefficients@[d]@[done + i]);
                    let h = |i: int| f(done + i);
                    assert forall|i: int| 0 <= i < batch implies #[trigger] g(i) == h(i) by {
                        assert(buffers@[i]@ == words[done + i].subrange(
                            start as int,
                            start + count,
                        ));
                        assert(buffers@[i]@.len() == count);
                    }
                    sums::lemma_sum_equal(g, h, batch as nat);
                    sums::lemma_sum_split(f, done as nat, batch as nat);
                    assert(prior[d]@[s] == row_with(
                        before[d]@,
                        words,
                        coefficients@[d]@,
                        done as nat,
                        start + s,
                    ));
                    field::law_xor(
                        before[d]@[start + s],
                        sums::xor_sum(f, done as nat),
                        sums::xor_sum(h, batch as nat),
                    );
                }
            }
            done = done + batch;
        }
        for d in 0..m
            invariant
                m == before.len(),
                m == destinations@.len(),
                rows@.len() == m,
                2 * (start + count) <= block_size,
                forall|k: int|
                    0 <= k < before.len() ==> block_size / 2 <= (#[trigger] before[k])@.len(),
                forall|k: int| 0 <= k < m ==> (#[trigger] rows@[k])@.len() == count,
                forall|k: int|
                    0 <= k < m ==> (#[trigger] destinations@[k])@.len() == before[k]@.len(),
                forall|k: int, s: int|
                    0 <= k < d && 0 <= s < before[k]@.len() ==> #[trigger] destinations@[k]@[s]
                        == (if start <= s < start + count {
                        rows@[k]@[s - start]
                    } else {
                        before[k]@[s]
                    }),
                forall|k: int| d <= k < m ==> (#[trigger] destinations@[k])@ == before[k]@,
        {
            assert(block_size / 2 <= before[d as int]@.len());
            assert(rows@[d as int]@.len() == count);
            assert(destinations@[d as int]@ == before[d as int]@);
            let width: usize = destinations[d].len();
            for s in 0..count
                invariant
                    d < m,
                    start + count <= width,
                    m == before.len(),
                    m == destinations@.len(),
                    rows@.len() == m,
                    start + count <= before[d as int]@.len(),
                    rows@[d as int]@.len() == count,
                    forall|k: int|
                        0 <= k < m ==> (#[trigger] destinations@[k])@.len() == before[k]@.len(),
                    forall|k: int, t: int|
                        0 <= k < d && 0 <= t < before[k]@.len() ==> #[trigger] destinations@[k]@[t]
                            == (if start <= t < start + count {
                            rows@[k]@[t - start]
                        } else {
                            before[k]@[t]
                        }),
                    forall|t: int|
                        0 <= t < before[d as int]@.len() ==> #[trigger] destinations@[d as int]@[t]
                            == (if start <= t < start + s {
                            rows@[d as int]@[t - start]
                        } else {
                            before[d as int]@[t]
                        }),
                    forall|k: int| d < k < m ==> (#[trigger] destinations@[k])@ == before[k]@,
            {
                let value: u16 = rows[d][s];
                let ghost prior = destinations@;
                destinations[d][start + s] = value;
                proof {
                    assert forall|k: int| 0 <= k < m implies (#[trigger] destinations@[k])@.len()
                        == before[k]@.len() by {
                        assert(prior[k]@.len() == before[k]@.len());
                    }
                }
            }
        }
        proof {
            assert forall|d: int, s: int|
                0 <= d < m && 0 <= s < before[d]@.len() implies #[trigger] destinations@[d]@[s] == (
            if start <= s < start + count {
                row_with(before[d]@, words, coefficients@[d]@, n as nat, s)
            } else {
                before[d]@[s]
            }) by {
                if start <= s < start + count {
                    assert(rows@[d]@[s - start] == row_with(
                        before[d]@,
                        words,
                        coefficients@[d]@,
                        n as nat,
                        start + (s - start),
                    ));
                }
            }
        }
    }

    /// Add whole blocks, each times its coefficient, to the destinations:
    /// `destinations[d] ^= sum of sources[source_indices[i]] * coefficients[d][i]` on the first
    /// `block_size` bytes. Blocks are read in chunks, and chunks are cut into regions.
    pub fn process_block_streaming(
        &self,
        destinations: &mut [Vec<u16>],
        source_indices: &[usize],
        coefficients: &[&[u16]],
        block_size: usize,
        sources: &[Vec<u8>],
    ) -> (r: Result<()>)
        requires
            old(destinations)@.len() > 0 && source_indices@.len() > 0 ==> can_process(
                self.config,
                old(destinations)@,
                source_indices@,
                coefficients@,
                block_size as int,
                sources@,
            ),
        ensures
            r is Ok,
            final(destinations)@.len() == old(destinations)@.len(),
            source_indices@.len() == 0 ==> final(destinations)@ == old(destinations)@,
            source_indices@.len() > 0 ==> forall|d: int|
                0 <= d < old(destinations)@.len() ==> (#[trigger] final(destinations)@[d])@
                    == bulk::add_weighted_region(
                    old(destinations)@[d]@,
                    source_words(sources@, source_indices@),
                    coefficients@[d]@.take(source_indices@.len() as int),
                    0,
                    (block_size / 2) as int,
                ),
    {
        if destinations.len() == 0 || source_indices.len() == 0 {
            return Ok(());
        }
        let total: usize = block_size / 2;
        let step: usize = self.config.chunk_size / 2;
        let ghost start = destinations@;
        let ghost words = source_words(sources@, source_indices@);
        let ghost n = source_indices@.len();
        let mut offset: usize = 0;
        while offset < total
            invariant
                offset <= total,
                total == block_size / 2,
                step == self.config.chunk_size / 2,
                step >= 1,
                start == old(destinations)@,
                words == source_words(sources@, source_indices@),
                n == source_indices@.len(),
                can_process(
                    self.config,
                    start,
                    source_indices@,
                    coefficients@,
                    block_size as int,
                    sources@,
                ),
                destinations@.len() == start.len(),
                forall|d: int|
                    0 <= d < start.len() ==> (#[trigger] destinations@[d])@.len()
                        == start[d]@.len(),
                forall|d: int, s: int|
                    0 <= d < start.len() && 0 <= s < start[d]@.len()
                        ==> #[trigger] destinations@[d]@[s] == (if s < offset {
                        row_with(start[d]@, words, coefficients@[d]@, n, s)
                    } else {
                        start[d]@[s]
                    }),
            decreases total - offset,
        {
            let count: usize = if total - offset <= step {
                total - offset
            } else {
                step
            };
            let ghost prior = destinations@;
            proof {
                assert forall|d: int| 0 <= d < prior.len() implies block_size as int / 2 <= (
                #[trigger] prior[d])@.len() by {
                    assert(block_size as int / 2 <= start[d]@.len());
                    assert(prior[d]@.len() == start[d]@.len());
                }
            }
            self.process_chunk(
                destinations,
                source_indices,
                coefficients,
                offset,
                count,
                sources,
                Ghost(block_size as int),
            );
            proof {
                assert forall|d: int, s: int|
                    0 <= d < start.len() && 0 <= s < start[d]@.len() implies
                    #[trigger] destinations@[d]@[s] == (if s < offset + count {
                    row_with(start[d]@, words, coefficients@[d]@, n, s)
                } else {
                    start[d]@[s]
                }) by {
                    assert(prior[d]@.len() == start[d]@.len());
                    assert(prior[d]@[s] == (if s < offset {
                        row_with(start[d]@, words, coefficients@[d]@, n, s)
                    } else {
                        start[d]@[s]
                    }));
                }
                assert forall|d: int| 0 <= d < start.len() implies (
                #[trigger] destinations@[d])@.len() == start[d]@.len() by {
                    assert(prior[d]@.len() == start[d]@.len());
                }
            }
            offset = offset + count;
        }
        proof {
            assert forall|d: int| 0 <= d < start.len() implies (#[trigger] destinations@[d])@
                == bulk::add_weighted_region(
                start[d]@,
                words,
                coefficients@[d]@.take(n as int),
                0,
                total as int,
            ) by {
                let coeffs = coefficients@[d]@;
                let part = coeffs.take(n as int);
                assert(n <= coeffs.len()) by {
                    assert(n <= coefficients@[d]@.len());
                }
                let want = bulk::add_weighted_region(start[d]@, words, part, 0, total as int);
                assert(destinations@[d]@.len() == start[d]@.len());
                assert forall|s: int| 0 <= s < start[d]@.len() implies destinations@[d]@[s]
                    == want[s] by {
                    if s < total {
                        let f = row_term(words, coeffs, s);
                        let g = |i: int| bulk::term(words, part, i, s);
                        assert forall|i: int| 0 <= i < n implies #[trigger] f(i) == g(i) by {
                            assert(block_size as int <= sources@[source_indices@[
                                i
                            ] as int]@.len());
                            assert(s < words[i].len());
                        }
                        sums::lemma_sum_equal(f, g, n);
                    }
                }
                assert(destinations@[d]@ =~= want);
            }
        }
        Ok(())
    }
}

} // verus!
