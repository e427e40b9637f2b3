//! How blocks are counted, and which sets there is room for.

use vstd::prelude::*;

use crate::blocks;
use crate::creator;
use crate::creator::{Par2Creator, PlanError};
use crate::info;
use crate::info::Par2FileEntry;
use crate::loader::Par2File;
use crate::parser;
use crate::parser::FileView;
use crate::repair_plan;
use crate::restoration;
use crate::text;

verus! {

/// There are `count` blocks of a size in `length` bytes: they hold all of them, and one fewer would not.
pub open spec fn is_count(count: int, length: int, block_size: int) -> bool {
    &&& 0 <= count
    &&& length <= count * block_size
    &&& count > 0 ==> (count - 1) * block_size < length
}

/// File `i` has the blocks from `starts[i]` up to `starts[i + 1]`.
pub open spec fn are_counted(lengths: Seq<u64>, block_size: int, starts: Seq<int>) -> bool {
    &&& starts.len() == lengths.len() + 1
    &&& starts[0] == 0
    &&& forall|i: int|
        0 <= i < lengths.len() ==> is_count(
            starts[i + 1] - starts[i],
            #[trigger] lengths[i] as int,
            block_size,
        )
}

/// The number of blocks is that which holds all bytes and no more.
pub proof fn law_count_is_least(count: int, length: int, block_size: int)
    requires
        0 <= length,
        block_size > 0,
    ensures
        is_count(count, length, block_size) <==> count == blocks::block_count(length, block_size),
{
    let n = blocks::block_count(length, block_size);
    blocks::law_block_count(length, block_size, n);
    if n > 0 {
        blocks::law_block_count(length, block_size, n - 1);
    }
    if 0 <= count {
        blocks::law_block_count(length, block_size, count);
        if count > 0 {
            blocks::law_block_count(length, block_size, count - 1);
        }
    }
}

proof fn lemma_starts(lengths: Seq<u64>, block_size: int, starts: Seq<int>, i: int)
    requires
        block_size > 0,
        are_counted(lengths, block_size, starts),
        0 <= i <= lengths.len(),
    ensures
        creator::total_blocks(lengths.take(i), block_size) == starts[i],
        0 <= starts[i] <= starts[lengths.len() as int],
    decreases i,
{
    if i == 0 {
        assert(lengths.take(0) =~= seq![]);
    } else {
        lemma_starts(lengths, block_size, starts, i - 1);
        assert(lengths.take(i).drop_last() =~= lengths.take(i - 1));
        assert(lengths.take(i).last() == lengths[i - 1]);
        law_count_is_least(starts[i - 1 + 1] - starts[i - 1], lengths[i - 1] as int, block_size);
    }
    lemma_starts_ascend(lengths, block_size, starts, i, lengths.len() as int);
}

proof fn lemma_starts_ascend(lengths: Seq<u64>, block_size: int, starts: Seq<int>, i: int, j: int)
    requires
        are_counted(lengths, block_size, starts),
        0 <= i <= j <= lengths.len(),
    ensures
        starts[i] <= starts[j],
    decreases j - i,
{
    if i < j {
        lemma_starts_ascend(lengths, block_size, starts, i, j - 1);
        assert(is_count(starts[j - 1 + 1] - starts[j - 1], lengths[j - 1] as int, block_size));
    }
}

proof fn lemma_counting(lengths: Seq<u64>, block_size: int, starts: Seq<int>, from: int)
    requires
        block_size > 0,
        are_counted(lengths, block_size, starts),
        0 <= from <= lengths.len(),
        starts[lengths.len() as int] <= 65535,
    ensures
        creator::counting_error(lengths, block_size, from) is None,
    decreases lengths.len() - from,
{
    lemma_starts(lengths, block_size, starts, lengths.len() as int);
    assert(lengths.take(lengths.len() as int) =~= lengths);
    if from < lengths.len() {
        lemma_counting(lengths, block_size, starts, from + 1);
        lemma_starts(lengths, block_size, starts, from);
        lemma_starts(lengths, block_size, starts, from + 1);
        law_count_is_least(starts[from + 1] - starts[from], lengths[from] as int, block_size);
    }
}

proof fn lemma_counting_fails(lengths: Seq<u64>, block_size: int, starts: Seq<int>, from: int)
    requires
        block_size > 0,
        are_counted(lengths, block_size, starts),
        0 <= from <= lengths.len(),
        starts[lengths.len() as int] > 65535,
    ensures
        creator::counting_error(lengths, block_size, from) is Some,
    decreases lengths.len() - from,
{
    lemma_starts(lengths, block_size, starts, lengths.len() as int);
    assert(lengths.take(lengths.len() as int) =~= lengths);
    if from < lengths.len() {
        lemma_counting_fails(lengths, block_size, starts, from + 1);
    }
}

/// Files are counted in order, and there is room for at most 65535 blocks.
pub proof fn law_blocks_are_counted(lengths: Seq<u64>, block_size: int, starts: Seq<int>, i: int)
    requires
        block_size > 0,
        are_counted(lengths, block_size, starts),
        0 <= i <= lengths.len(),
    ensures
        creator::total_blocks(lengths.take(i), block_size) == starts[i],
        creator::total_blocks(lengths, block_size) == starts.last(),
        creator::counting_error(lengths, block_size, 0) is None <==> starts.last() <= 65535,
{
    lemma_starts(lengths, block_size, starts, i);
    lemma_starts(lengths, block_size, starts, lengths.len() as int);
    assert(lengths.take(lengths.len() as int) =~= lengths);
    if starts.last() <= 65535 {
        lemma_counting(lengths, block_size, starts, 0);
    } else {
        lemma_counting_fails(lengths, block_size, starts, 0);
    }
}

/// A set is valid just if its block size is a multiple of 4, not 0, and fits the platform, and its data
/// blocks and recovery blocks together are at most 65535.
pub proof fn law_sets_are_accepted(par2: Par2File, starts: Seq<int>)
    requires
        par2.block_size > 0,
        are_counted(
            creator::lengths_of(parser::file_views(par2.files_in_order@)),
            par2.block_size as int,
            starts,
        ),
    ensures
        repair_plan::set_error(par2) is None <==> par2.block_size % 4 == 0 && par2.block_size
            <= usize::MAX && starts.last() + par2.recovery_blocks@.len() <= 65535,
        repair_plan::data_block_count(par2) == starts.last(),
{
    let lengths = creator::lengths_of(parser::file_views(par2.files_in_order@));
    law_blocks_are_counted(lengths, par2.block_size as int, starts, 0);
    lemma_starts(lengths, par2.block_size as int, starts, lengths.len() as int);
}

/// The blocks of files are numbered one file after the other.
pub proof fn law_files_have_ranges(
    files: Seq<FileView>,
    block_size: int,
    starts: Seq<int>,
    f: int,
)
    requires
        block_size > 0,
        restoration::ids_differ(files),
        are_counted(creator::lengths_of(files), block_size, starts),
        0 <= f < files.len(),
    ensures
        repair_plan::range_of(files, block_size, files[f].file_id, files.len()) == Some(
            (starts[f], starts[f + 1] - starts[f]),
        ),
{
    let lengths = creator::lengths_of(files);
    restoration::lemma_range(files, block_size, f, files.len());
    lemma_starts(lengths, block_size, starts, f);
    law_count_is_least(starts[f + 1] - starts[f], lengths[f] as int, block_size);
}

/// Files can be protected just if the block size fits the platform, the data blocks are at most 65535 and
/// their bytes can be counted, and there is room for the recovery blocks beside them.
pub proof fn law_files_can_be_protected(
    lengths: Seq<u64>,
    block_size: int,
    starts: Seq<int>,
    recovery_bytes: int,
    recovery: int,
)
    requires
        block_size > 0,
        0 <= recovery_bytes,
        are_counted(lengths, block_size, starts),
        is_count(recovery, recovery_bytes, block_size),
    ensures
        creator::plan_error(lengths, block_size, recovery_bytes) is None <==> block_size
            <= usize::MAX && starts.last() <= 65535 && starts.last() * block_size <= u64::MAX
            && starts.last() + recovery <= 65535,
        creator::data_error(lengths, block_size) is None <==> block_size <= usize::MAX
            && starts.last() <= 65535 && starts.last() * block_size <= u64::MAX,
{
    law_blocks_are_counted(lengths, block_size, starts, 0);
    lemma_starts(lengths, block_size, starts, lengths.len() as int);
    law_count_is_least(recovery, recovery_bytes, block_size);
}

/// The block size aims at 2000 blocks. It is a multiple of 4 from 2048 to 4 MiB, and larger only where
/// otherwise there would be more than 65535 blocks: then it is the least with which there are not.
pub proof fn law_block_size_aims_at_2000_blocks(total: int)
    requires
        0 <= total,
    ensures
        ({
            let size = creator::optimal_block_size(total);
            &&& size % 4 == 0
            &&& size >= 2048
            &&& total <= 65535 * size
            &&& total <= 4096000 ==> size == 2048
            &&& 4096000 <= total <= 8388608000 ==> total / 2000 <= size <= total / 2000 + 3
            &&& 8388608000 <= total <= 274873712640 ==> size == 4194304
            &&& total > 274873712640 ==> 65535 * (size - 4) < total
        }),
{
    creator::law_block_size(total);
    let size = creator::optimal_block_size(total);
    blocks::law_block_count(total, size, 65535);
    let per_block = blocks::block_count(total, 65535);
    law_count_is_least(per_block, total, 65535);
}

/// More bytes never get smaller blocks.
pub proof fn law_block_size_grows(a: int, b: int)
    requires
        0 <= a <= b,
    ensures
        creator::optimal_block_size(a) <= creator::optimal_block_size(b),
{
    law_block_size_aims_at_2000_blocks(a);
    law_block_size_aims_at_2000_blocks(b);
}

/// The block size of a creator is the one that was chosen, and otherwise that for all bytes of its files.
pub proof fn law_creators_choose_block_sizes(c: Par2Creator, ends: Seq<int>)
    requires
        ends.len() == c.input_files@.len() + 1,
        ends[0] == 0,
        forall|i: int|
            0 <= i < c.input_files@.len() ==> ends[i + 1] == ends[i] + (
            #[trigger] c.input_files@[i]).data@.len(),
    ensures
        c.block_size matches Some(size) ==> c.size() == size,
        c.block_size is None ==> c.size() == creator::optimal_block_size(ends.last()),
{
    let lengths = creator::input_lengths(c.input_files@);
    lemma_ends(c, ends, lengths.len() as int);
    assert(lengths.take(lengths.len() as int) =~= lengths);
}

proof fn lemma_ends(c: Par2Creator, ends: Seq<int>, i: int)
    requires
        ends.len() == c.input_files@.len() + 1,
        ends[0] == 0,
        forall|k: int|
            0 <= k < c.input_files@.len() ==> ends[k + 1] == ends[k] + (
            #[trigger] c.input_files@[k]).data@.len(),
        0 <= i <= c.input_files@.len(),
    ensures
        creator::total_length(creator::input_lengths(c.input_files@).take(i)) == ends[i],
    decreases i,
{
    let lengths = creator::input_lengths(c.input_files@);
    if i == 0 {
        assert(lengths.take(0) =~= seq![]);
    } else {
        lemma_ends(c, ends, i - 1);
        assert(lengths.take(i).drop_last() =~= lengths.take(i - 1));
        let file = c.input_files@[i - 1];
        assert(file.data.len() == file.data@.len());
        assert(lengths.take(i).last() == file.data@.len());
        assert(ends[i - 1 + 1] == ends[i - 1] + file.data@.len());
    }
}

/// Information on a set counts the blocks of its files.
pub proof fn law_information_counts_blocks(
    files: Seq<Par2FileEntry>,
    block_size: int,
    starts: Seq<int>,
    n: nat,
)
    requires
        block_size > 0,
        are_counted(Seq::new(files.len(), |i: int| files[i].length), block_size, starts),
        n <= files.len(),
    ensures
        info::blocks_of(files, block_size, n) == starts[n as int],
    decreases n,
{
    if n > 0 {
        let lengths = Seq::new(files.len(), |i: int| files[i].length);
        law_information_counts_blocks(files, block_size, starts, (n - 1) as nat);
        assert(is_count(starts[n - 1 + 1] - starts[n - 1], lengths[n - 1] as int, block_size));
        law_count_is_least(starts[n - 1 + 1] - starts[n - 1], lengths[n - 1] as int, block_size);
    }
}

/// The blocks of files can be counted.
pub proof fn lemma_count(lengths: Seq<u64>, block_size: int) -> (starts: Seq<int>)
    requires
        block_size > 0,
    ensures
        are_counted(lengths, block_size, starts),
        starts.last() == creator::total_blocks(lengths, block_size),
{
    let starts = Seq::new(
        lengths.len() + 1,
        |i: int| creator::total_blocks(lengths.take(i), block_size),
    );
    assert(lengths.take(0) =~= seq![]);
    assert(lengths.take(lengths.len() as int) =~= lengths);
    assert forall|i: int| 0 <= i < lengths.len() implies is_count(
        starts[i + 1] - starts[i],
        #[trigger] lengths[i] as int,
        block_size,
    ) by {
        assert(lengths.take(i + 1).drop_last() =~= lengths.take(i));
        assert(lengths.take(i + 1).last() == lengths[i]);
        law_count_is_least(starts[i + 1] - starts[i], lengths[i] as int, block_size);
    }
    starts
}

/// What is refused is refused for its reason: more than 65535 data blocks, more than 65535 recovery blocks,
/// or more than 65535 of both.
pub proof fn law_refusals_tell_their_reasons(
    lengths: Seq<u64>,
    block_size: int,
    starts: Seq<int>,
    recovery_bytes: int,
    recovery: int,
    names: Seq<Seq<char>>,
)
    requires
        0 < block_size <= usize::MAX,
        0 <= recovery_bytes,
        are_counted(lengths, block_size, starts),
        is_count(recovery, recovery_bytes, block_size),
        starts.last() <= usize::MAX,
        recovery <= usize::MAX,
    ensures
        ({
            let total = starts.last();
            let e = creator::plan_error(lengths, block_size, recovery_bytes);
            &&& total > 65535 ==> e is Some && creator::plan_message(e->Some_0, names)
                == "Total data blocks ("@ + text::decimal_digits(total as nat)
                + ") exceed GF(2^16) limit (65535)"@
            &&& total <= 65535 && total * block_size <= u64::MAX && recovery > 65535 ==> e is Some
                && creator::plan_message(e->Some_0, names) == "Recovery blocks ("@
                + text::decimal_digits(recovery as nat) + ") exceed GF(2^16) limit (65535)"@
            &&& total <= 65535 && total * block_size <= u64::MAX && recovery <= 65535 && total
                + recovery > 65535 ==> e is Some && creator::plan_message(e->Some_0, names)
                == "Total blocks (data + recovery) exceed GF(2^16) limit (65535)"@
        }),
{
    law_files_can_be_protected(lengths, block_size, starts, recovery_bytes, recovery);
    law_blocks_are_counted(lengths, block_size, starts, 0);
    law_count_is_least(recovery, recovery_bytes, block_size);
    if starts.last() > 65535 {
        lemma_counting_reason(lengths, block_size, starts, 0);
    }
}

proof fn lemma_counting_reason(lengths: Seq<u64>, block_size: int, starts: Seq<int>, from: int)
    requires
        block_size > 0,
        are_counted(lengths, block_size, starts),
        0 <= from <= lengths.len(),
        65535 < starts.last() <= usize::MAX,
    ensures
        creator::counting_error(lengths, block_size, from) == Some(
            PlanError::DataBlocks(starts.last() as nat),
        ),
    decreases lengths.len() - from,
{
    lemma_starts(lengths, block_size, starts, lengths.len() as int);
    assert(lengths.take(lengths.len() as int) =~= lengths);
    if from < lengths.len() {
        lemma_counting_reason(lengths, block_size, starts, from + 1);
        lemma_starts(lengths, block_size, starts, from);
        lemma_starts(lengths, block_size, starts, from + 1);
        law_count_is_least(starts[from + 1] - starts[from], lengths[from] as int, block_size);
    }
}

/// A block size can be chosen just if it is at least 2048, a multiple of 4, and fits the platform.
pub proof fn law_block_sizes_that_can_be_chosen(size: u64)
    ensures
        creator::valid_block_size(size) <==> 2048 <= size <= usize::MAX && size % 4 == 0,
{
}

/// The greater and the smaller of two numbers.
pub proof fn law_greater_and_smaller(a: int, b: int)
    ensures
        creator::greatest(a, b) >= a && creator::greatest(a, b) >= b,
        creator::greatest(a, b) == a || creator::greatest(a, b) == b,
        parser::least(a, b) <= a && parser::least(a, b) <= b,
        parser::least(a, b) == a || parser::least(a, b) == b,
{
}

} // verus!
