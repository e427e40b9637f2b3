//! How blocks are cut into chunks for repair.

use vstd::prelude::*;
use vstd::string::*;

use crate::blocks;
use crate::creator;
use crate::parser;

verus! {

/// The size of chunks that suits the instruction set: the wider its registers, the larger the
/// chunks.
pub fn ideal_chunk_size(avx512f: bool, gfni: bool, avx2: bool, ssse3: bool) -> (r: usize)
    ensures
        r == (if avx512f && gfni {
            131072
        } else if avx512f {
            65536
        } else if avx2 {
            49152
        } else if ssse3 {
            32768
        } else {
            16384int
        }),
{
    if avx512f && gfni {
        131072
    } else if avx512f {
        65536
    } else if avx2 {
        49152
    } else if ssse3 {
        32768
    } else {
        16384
    }
}

/// The number of CPUs that a quota in each period amounts to, rounded up. `None` if there is no
/// limit.
pub fn cpu_limit(quota: i64, period: i64) -> (r: Option<u64>)
    ensures
        r is Some <==> quota > 0 && period > 0,
        r matches Some(n) ==> n == blocks::block_count(quota as int, period as int) && n >= 1,
{
    if quota > 0 && period > 0 {
        let n: u64 = blocks::count_blocks(quota as u64, period as u64);
        proof {
            blocks::law_block_count(quota as int, period as int, 0);
        }
        Some(n)
    } else {
        None
    }
}

/// A chunk size that gives every CPU the same share of a block.
pub open spec fn even_chunk_size(block_size: int, num_cpus: int, ideal: int) -> int {
    let per_thread = block_size / num_cpus;
    if block_size <= ideal * num_cpus {
        creator::greatest(per_thread, 4096)
    } else if per_thread <= ideal / 2 {
        creator::greatest(block_size / (num_cpus * 4), 4096)
    } else {
        block_size / (num_cpus * creator::greatest(per_thread / ideal, 1))
    }
}

/// The chunk size: even, at least that which was asked for, at least 4096 and at most the size of a
/// block.
pub open spec fn chunk_size_for(
    block_size: int,
    num_cpus: int,
    ideal: int,
    min_chunk: Option<usize>,
) -> int {
    let even = even_chunk_size(block_size, num_cpus, ideal);
    let asked = match min_chunk {
        Some(m) => creator::greatest(even, m as int),
        None => even,
    };
    let clamped = parser::least(
        creator::greatest(asked, parser::least(4096, block_size)),
        block_size,
    );
    creator::greatest(clamped / 2 * 2, 2)
}

/// Choose the chunk size.
pub fn choose_chunk_size(
    block_size: usize,
    num_cpus: usize,
    ideal: usize,
    min_chunk: Option<usize>,
) -> (r: usize)
    requires
        block_size >= 2,
        num_cpus > 0,
        ideal > 0,
        ideal * num_cpus <= usize::MAX,
        num_cpus * 4 <= usize::MAX,
    ensures
        r == chunk_size_for(block_size as int, num_cpus as int, ideal as int, min_chunk),
        r % 2 == 0,
        2 <= r <= block_size,
{
    let per_thread: usize = block_size / num_cpus;
    let even: usize = if block_size <= ideal * num_cpus {
        if per_thread >= 4096 {
            per_thread
        } else {
            4096
        }
    } else if per_thread <= ideal / 2 {
        let share: usize = block_size / (num_cpus * 4);
        if share >= 4096 {
            share
        } else {
            4096
        }
    } else {
        let share: usize = per_thread / ideal;
        let chunks: usize = if share >= 1 {
            share
        } else {
            1
        };
        proof {
            assert(num_cpus * chunks <= usize::MAX && num_cpus * chunks > 0) by (nonlinear_arith)
                requires
                    chunks == share || chunks == 1,
                    chunks >= 1,
                    num_cpus >= 1,
                    ideal >= 1,
                    share == per_thread / ideal,
                    per_thread == block_size / num_cpus,
                    block_size <= usize::MAX,
                    num_cpus <= usize::MAX,
            ;
        }
        block_size / (num_cpus * chunks)
    };
    let asked: usize = match min_chunk {
        Some(m) => if even >= m {
            even
        } else {
            m
        },
        None => even,
    };
    let low: usize = if 4096 <= block_size {
        4096
    } else {
        block_size
    };
    let clamped: usize = if asked < low {
        low
    } else if asked > block_size {
        block_size
    } else {
        asked
    };
    let rounded: usize = clamped / 2 * 2;
    if rounded >= 2 {
        rounded
    } else {
        2
    }
}

/// The path of the file into which a repaired file is written before it replaces the file at
/// `final_path`.
pub fn temp_path_for(final_path: &str) -> (r: String)
    ensures
        r@ == final_path@ + ".par2tmp"@,
{
    let mut r: String = final_path.to_owned();
    r.append(".par2tmp");
    r
}

/// A chunk has an even size, at least 4096 and at least that which was asked for, but at most that of a
/// block.
pub proof fn law_chunks_fit_into_blocks(
    block_size: int,
    num_cpus: int,
    ideal: int,
    min_chunk: Option<usize>,
)
    requires
        block_size > 0,
        block_size % 4 == 0,
        num_cpus > 0,
        ideal > 0,
    ensures
        ({
            let r = chunk_size_for(block_size, num_cpus, ideal, min_chunk);
            &&& r % 2 == 0
            &&& 2 <= r <= block_size
            &&& r >= 4096 || r == block_size
            &&& min_chunk matches Some(m) ==> r + 1 >= m || r == block_size
            &&& block_size <= 4096 ==> r == block_size
        }),
{
}

/// A block that all CPUs together can take at once is cut into one chunk for each; of a larger one, each
/// CPU gets as many chunks of the ideal size as its share holds, or the block is cut into four chunks for
/// each CPU if its share is at most half the ideal size. No chunk is smaller than 4096 bytes.
pub proof fn law_chunks_share_the_work(block_size: int, num_cpus: int, ideal: int)
    requires
        block_size >= 4096,
        block_size % 4 == 0,
        num_cpus > 0,
        ideal > 0,
    ensures
        ({
            let r = chunk_size_for(block_size, num_cpus, ideal, None);
            let share = block_size / num_cpus;
            let wish = if block_size <= ideal * num_cpus {
                share
            } else if 2 * share <= ideal {
                block_size / (num_cpus * 4)
            } else if share < 2 * ideal {
                share
            } else {
                block_size / (num_cpus * (share / ideal))
            };
            &&& wish <= 4096 ==> r == 4096
            &&& wish > 4096 ==> r <= wish < r + 2
        }),
{
    let share = block_size / num_cpus;
    assert(0 <= share <= block_size) by (nonlinear_arith)
        requires
            share == block_size / num_cpus,
            num_cpus > 0,
            block_size > 0,
    ;
    if ideal <= share < 2 * ideal {
        assert(share / ideal == 1) by (nonlinear_arith)
            requires
                ideal > 0,
                ideal <= share < 2 * ideal,
        ;
    } else if share < ideal {
        assert(share / ideal == 0) by (nonlinear_arith)
            requires
                0 <= share < ideal,
        ;
    } else {
        assert(share / ideal >= 2) by (nonlinear_arith)
            requires
                ideal > 0,
                share >= 2 * ideal,
        ;
        let d = num_cpus * (share / ideal);
        assert(d >= 1) by (nonlinear_arith)
            requires
                num_cpus > 0,
                share / ideal >= 2,
                d == num_cpus * (share / ideal),
        ;
        assert(block_size / d <= block_size) by (nonlinear_arith)
            requires
                d >= 1,
                block_size > 0,
        ;
    }
    assert(block_size / (num_cpus * 4) <= block_size) by (nonlinear_arith)
        requires
            num_cpus > 0,
            block_size > 0,
    ;
    assert(num_cpus * 1 == num_cpus);
}

} // verus!
