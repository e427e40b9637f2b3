//! Splitting recovery blocks across volumes.
//!
//! All recovery blocks can go into one volume, or 1, 2, 4, 8 ... of them, so that only the recovery
//! data that are needed have to be fetched. A volume is named `basename.volSTART+COUNT.par2`, such
//! as `archive.vol00+02.par2`.

use vstd::prelude::*;
use vstd::string::*;

use crate::error::Result;
use crate::parser;
use crate::parser::{RecoveryBlock, RecoveryView};
use crate::paths;
use crate::text;

verus! {

/// How recovery blocks are distributed over volumes.
#[derive(Debug, Clone, Copy, PartialEq, Eq, Structural)]
pub enum VolumeScheme {
    /// All recovery blocks in one volume.
    Single,
    /// 1, 2, 4, 8 ... blocks per volume, at most 1024.
    Exponential,
}

/// A volume.
#[verifier::ext_equal]
pub struct VolumeView {
    pub path: Seq<char>,
    pub exponent_start: u32,
    pub exponent_end: u32,
    pub recovery_blocks: Seq<RecoveryView>,
}

/// A volume.
#[derive(Debug)]
pub struct VolumeInfo {
    /// The path of the volume.
    pub path: String,
    /// The first exponent.
    pub exponent_start: u32,
    /// The last exponent.
    pub exponent_end: u32,
    /// The recovery blocks in the volume.
    pub recovery_blocks: Vec<RecoveryBlock>,
}

impl View for VolumeInfo {
    type V = VolumeView;

    open spec fn view(&self) -> VolumeView {
        VolumeView {
            path: self.path@,
            exponent_start: self.exponent_start,
            exponent_end: self.exponent_end,
            recovery_blocks: parser::recovery_views(self.recovery_blocks@),
        }
    }
}

/// The contents of volumes.
pub open spec fn volume_views(s: Seq<VolumeInfo>) -> Seq<VolumeView> {
    Seq::new(s.len(), |i: int| s[i]@)
}

/// The number of digits of the numbers in volume names: that of the greatest exponent.
pub fn calculate_padding_width(max_exponent: u32) -> (r: usize)
    ensures
        r == text::decimal_digits(max_exponent as nat).len(),
        1 <= r <= 20,
{
    text::decimal_len(max_exponent as u64)
}

/// The name of a volume: the base name, the first exponent, and the number of exponents.
pub open spec fn volume_name(base_name: Seq<char>, start: u32, end: u32, width: nat) -> Seq<char> {
    base_name + ".vol"@ + text::padded_digits(start as nat, width) + "+"@ + text::padded_digits(
        (end - start + 1) as nat,
        width,
    ) + ".par2"@
}

/// Build the name of a volume.
pub fn generate_volume_filename(
    base_name: &str,
    start_exp: u32,
    end_exp: u32,
    padding_width: usize,
) -> (r: String)
    requires
        start_exp <= end_exp,
        end_exp - start_exp < u32::MAX,
    ensures
        r@ == volume_name(base_name@, start_exp, end_exp, padding_width as nat),
{
    let count: u32 = end_exp - start_exp + 1;
    let mut name: String = base_name.to_owned();
    name.append(".vol");
    name.append(text::padded(start_exp as u64, padding_width).as_str());
    name.append("+");
    name.append(text::padded(count as u64, padding_width).as_str());
    name.append(".par2");
    name
}

/// Recovery data with their exponents.
pub open spec fn block_views(blocks: Seq<(u32, Vec<u8>)>) -> Seq<(u32, Seq<u8>)> {
    Seq::new(blocks.len(), |i: int| (blocks[i].0, blocks[i].1@))
}

/// A recovery block whose data are in memory.
pub open spec fn in_memory(block: (u32, Seq<u8>)) -> RecoveryView {
    RecoveryView {
        exponent: block.0,
        data: Some(block.1),
        file_path: seq![],
        data_offset: 0,
        data_length: block.1.len() as u64,
    }
}

/// Recovery blocks whose data are in memory.
pub open spec fn all_in_memory(blocks: Seq<(u32, Seq<u8>)>) -> Seq<RecoveryView> {
    Seq::new(blocks.len(), |i: int| in_memory(blocks[i]))
}

/// One volume with the given blocks, from the exponent `start` to that of the last block.
pub open spec fn volume_of(
    blocks: Seq<(u32, Seq<u8>)>,
    start: u32,
    base_name: Seq<char>,
    width: nat,
) -> VolumeView {
    VolumeView {
        path: volume_name(base_name, start, blocks.last().0, width),
        exponent_start: start,
        exponent_end: blocks.last().0,
        recovery_blocks: all_in_memory(blocks),
    }
}

/// The number of blocks in the volume after one of `target` blocks.
pub open spec fn next_target(target: nat) -> nat {
    if 2 * target <= 1024 {
        2 * target
    } else {
        1024
    }
}

/// Volumes of `target` blocks, then of twice as many, and so on up to 1024; the last volume holds
/// what is left.
pub open spec fn exponential_volumes(
    blocks: Seq<(u32, Seq<u8>)>,
    target: nat,
    base_name: Seq<char>,
    width: nat,
) -> Seq<VolumeView>
    decreases blocks.len(),
{
    if blocks.len() == 0 || target == 0 {
        seq![]
    } else if blocks.len() <= target {
        seq![volume_of(blocks, blocks[0].0, base_name, width)]
    } else {
        seq![volume_of(blocks.take(target as int), blocks[0].0, base_name, width)]
            + exponential_volumes(
            blocks.skip(target as int),
            next_target(target),
            base_name,
            width,
        )
    }
}

/// How recovery blocks are distributed over volumes, each with its name as its path.
pub open spec fn planned_volumes(
    blocks: Seq<(u32, Seq<u8>)>,
    scheme: VolumeScheme,
    base_name: Seq<char>,
) -> Seq<VolumeView> {
    if blocks.len() == 0 {
        seq![]
    } else {
        let width = text::decimal_digits(blocks.last().0 as nat).len();
        match scheme {
            VolumeScheme::Single => seq![volume_of(blocks, 0, base_name, width)],
            VolumeScheme::Exponential => exponential_volumes(blocks, 1, base_name, width),
        }
    }
}

/// In no volume the first exponent is larger than the last, and the number of exponents can be told.
pub open spec fn ranges_fit(volumes: Seq<VolumeView>) -> bool {
    forall|k: int|
        0 <= k < volumes.len() ==> (#[trigger] volumes[k]).exponent_start
            <= volumes[k].exponent_end && volumes[k].exponent_end - volumes[k].exponent_start
            < u32::MAX
}

/// The names of the volumes can be told.
pub open spec fn can_be_named(blocks: Seq<(u32, Seq<u8>)>, scheme: VolumeScheme) -> bool {
    ranges_fit(planned_volumes(blocks, scheme, seq![]))
}

proof fn lemma_exponential_ranges(
    blocks: Seq<(u32, Seq<u8>)>,
    target: nat,
    base_name: Seq<char>,
    width: nat,
)
    requires
        in_sequence(blocks),
    ensures
        ranges_fit(exponential_volumes(blocks, target, base_name, width)),
    decreases blocks.len(),
{
    if blocks.len() > target && target > 0 {
        let rest = blocks.skip(target as int);
        assert forall|i: int| 0 <= i < rest.len() implies (#[trigger] rest[i]).0 < u32::MAX by {
            assert(rest[i] == blocks[i + target]);
        }
        lemma_exponential_ranges(rest, next_target(target), base_name, width);
        let part = blocks.take(target as int);
        assert(part.last() == blocks[target - 1]);
        assert(part.last().0 < u32::MAX);
    } else if blocks.len() > 0 {
        assert(blocks.last().0 < u32::MAX);
    }
}

/// If the exponents do not decrease, the names of the volumes can be told.
pub proof fn law_sequences_can_be_named(blocks: Seq<(u32, Seq<u8>)>, scheme: VolumeScheme)
    requires
        in_sequence(blocks),
    ensures
        can_be_named(blocks, scheme),
{
    if blocks.len() > 0 {
        assert(blocks.last().0 < u32::MAX);
        let width = text::decimal_digits(blocks.last().0 as nat).len();
        lemma_exponential_ranges(blocks, 1, seq![], width);
    }
}

/// The exponents do not decrease, and are below the largest number.
pub open spec fn in_sequence(blocks: Seq<(u32, Seq<u8>)>) -> bool {
    &&& forall|i: int, j: int| 0 <= i <= j < blocks.len() ==> blocks[i].0 <= blocks[j].0
    &&& forall|i: int| 0 <= i < blocks.len() ==> (#[trigger] blocks[i]).0 < u32::MAX
}

proof fn lemma_exponential_names(
    blocks: Seq<(u32, Seq<u8>)>,
    target: nat,
    a: Seq<char>,
    b: Seq<char>,
    width: nat,
)
    ensures
        same_but_paths(
            exponential_volumes(blocks, target, a, width),
            exponential_volumes(blocks, target, b, width),
        ),
    decreases blocks.len(),
{
    if blocks.len() > target && target > 0 {
        lemma_exponential_names(blocks.skip(target as int), next_target(target), a, b, width);
        let x = exponential_volumes(blocks.skip(target as int), next_target(target), a, width);
        let y = exponential_volumes(blocks.skip(target as int), next_target(target), b, width);
        let va = exponential_volumes(blocks, target, a, width);
        let vb = exponential_volumes(blocks, target, b, width);
        assert forall|i: int| 0 <= i < va.len() implies #[trigger] va[i] == (VolumeView {
            path: va[i].path,
            ..vb[i]
        }) by {
            if i > 0 {
                assert(va[i] == x[i - 1]);
                assert(vb[i] == y[i - 1]);
            }
        }
    }
}

/// The base name decides the names of the volumes only.
pub proof fn law_base_name_names_volumes(
    blocks: Seq<(u32, Seq<u8>)>,
    scheme: VolumeScheme,
    a: Seq<char>,
    b: Seq<char>,
)
    ensures
        same_but_paths(planned_volumes(blocks, scheme, a), planned_volumes(blocks, scheme, b)),
{
    if blocks.len() > 0 {
        let width = text::decimal_digits(blocks.last().0 as nat).len();
        lemma_exponential_names(blocks, 1, a, b, width);
    }
}

/// All blocks of volumes, one volume after the other.
pub open spec fn joined_blocks(volumes: Seq<VolumeView>) -> Seq<RecoveryView>
    decreases volumes.len(),
{
    if volumes.len() == 0 {
        seq![]
    } else {
        volumes[0].recovery_blocks + joined_blocks(volumes.skip(1))
    }
}

proof fn lemma_exponential_holds_all(
    blocks: Seq<(u32, Seq<u8>)>,
    target: nat,
    base_name: Seq<char>,
    width: nat,
)
    requires
        target > 0,
    ensures
        joined_blocks(exponential_volumes(blocks, target, base_name, width)) == all_in_memory(
            blocks,
        ),
    decreases blocks.len(),
{
    let volumes = exponential_volumes(blocks, target, base_name, width);
    if blocks.len() == 0 {
        assert(all_in_memory(blocks) =~= seq![]);
    } else if blocks.len() <= target {
        assert(volumes.skip(1) =~= seq![]);
        assert(joined_blocks(volumes.skip(1)) =~= seq![]);
        assert(joined_blocks(volumes) =~= all_in_memory(blocks));
    } else {
        let rest = blocks.skip(target as int);
        lemma_exponential_holds_all(rest, next_target(target), base_name, width);
        assert(volumes.skip(1) =~= exponential_volumes(
            rest,
            next_target(target),
            base_name,
            width,
        ));
        assert(joined_blocks(volumes) =~= all_in_memory(blocks));
    }
}

/// The volumes together hold all recovery blocks, each once, in their order.
pub proof fn law_volumes_hold_all_blocks(
    blocks: Seq<(u32, Seq<u8>)>,
    scheme: VolumeScheme,
    base_name: Seq<char>,
)
    ensures
        joined_blocks(planned_volumes(blocks, scheme, base_name)) == all_in_memory(blocks),
{
    let volumes = planned_volumes(blocks, scheme, base_name);
    if blocks.len() == 0 {
        assert(all_in_memory(blocks) =~= seq![]);
    } else {
        let width = text::decimal_digits(blocks.last().0 as nat).len();
        match scheme {
            VolumeScheme::Single => {
                assert(volumes.skip(1) =~= seq![]);
                assert(joined_blocks(volumes.skip(1)) =~= seq![]);
                assert(joined_blocks(volumes) =~= all_in_memory(blocks));
            },
            VolumeScheme::Exponential => {
                lemma_exponential_holds_all(blocks, 1, base_name, width);
            },
        }
    }
}

/// 2 to the power `n`, but at most 1024.
pub open spec fn doubled(n: nat) -> nat
    decreases n,
{
    if n == 0 {
        1
    } else {
        next_target(doubled((n - 1) as nat))
    }
}

proof fn lemma_exponential_sizes(
    blocks: Seq<(u32, Seq<u8>)>,
    first: nat,
    base_name: Seq<char>,
    width: nat,
    i: int,
)
    requires
        0 <= i < exponential_volumes(blocks, doubled(first), base_name, width).len(),
    ensures
        ({
            let volumes = exponential_volumes(blocks, doubled(first), base_name, width);
            let size = volumes[i].recovery_blocks.len();
            if i < volumes.len() - 1 {
                size == doubled((first + i) as nat)
            } else {
                1 <= size <= doubled((first + i) as nat)
            }
        }),
    decreases blocks.len(),
{
    lemma_doubled_positive(first);
    let target = doubled(first);
    if blocks.len() > target {
        let rest = blocks.skip(target as int);
        assert(doubled(first + 1) == next_target(target));
        let later = exponential_volumes(rest, doubled(first + 1), base_name, width);
        if i > 0 {
            lemma_exponential_sizes(rest, first + 1, base_name, width, i - 1);
        }
        assert(later.len() > 0) by {
            lemma_doubled_positive(first + 1);
        }
    }
}

proof fn lemma_doubled_positive(n: nat)
    ensures
        1 <= doubled(n) <= 1024,
    decreases n,
{
    if n > 0 {
        lemma_doubled_positive((n - 1) as nat);
    }
}

/// In the exponential scheme the volumes hold 1, 2, 4, 8 ... blocks, at most 1024, the last one
/// perhaps fewer, but none is empty.
pub proof fn law_exponential_volume_sizes(
    blocks: Seq<(u32, Seq<u8>)>,
    base_name: Seq<char>,
    i: int,
)
    requires
        0 <= i < planned_volumes(blocks, VolumeScheme::Exponential, base_name).len(),
    ensures
        ({
            let volumes = planned_volumes(blocks, VolumeScheme::Exponential, base_name);
            let size = volumes[i].recovery_blocks.len();
            if i < volumes.len() - 1 {
                size == doubled(i as nat)
            } else {
                1 <= size <= doubled(i as nat)
            }
        }),
{
    let width = text::decimal_digits(blocks.last().0 as nat).len();
    assert(doubled(0) == 1);
    lemma_exponential_sizes(blocks, 0, base_name, width, i);
}

proof fn lemma_exponential_block(
    blocks: Seq<(u32, Seq<u8>)>,
    target: nat,
    base_name: Seq<char>,
    width: nat,
    i: int,
    k: int,
)
    requires
        0 <= i < exponential_volumes(blocks, target, base_name, width).len(),
        0 <= k < exponential_volumes(blocks, target, base_name, width)[i].recovery_blocks.len(),
    ensures
        exists|m: int|
            0 <= m < blocks.len() && exponential_volumes(
                blocks,
                target,
                base_name,
                width,
            )[i].recovery_blocks[k] == in_memory(#[trigger] blocks[m]),
    decreases blocks.len(),
{
    let all = exponential_volumes(blocks, target, base_name, width);
    if blocks.len() <= target {
        assert(all[i].recovery_blocks[k] == in_memory(blocks[k]));
    } else if i == 0 {
        assert(all[i].recovery_blocks[k] == in_memory(blocks[k]));
    } else {
        let rest = blocks.skip(target as int);
        let later = exponential_volumes(rest, next_target(target), base_name, width);
        assert(all[i] == later[i - 1]);
        lemma_exponential_block(rest, next_target(target), base_name, width, i - 1, k);
        let m = choose|m: int|
            0 <= m < rest.len() && later[i - 1].recovery_blocks[k] == in_memory(#[trigger] rest[m]);
        assert(rest[m] == blocks[m + target]);
    }
}

/// Every block of a volume is one of the recovery blocks.
pub proof fn lemma_planned_block(
    blocks: Seq<(u32, Seq<u8>)>,
    scheme: VolumeScheme,
    base_name: Seq<char>,
    i: int,
    k: int,
)
    requires
        0 <= i < planned_volumes(blocks, scheme, base_name).len(),
        0 <= k < planned_volumes(blocks, scheme, base_name)[i].recovery_blocks.len(),
    ensures
        exists|m: int|
            0 <= m < blocks.len() && planned_volumes(
                blocks,
                scheme,
                base_name,
            )[i].recovery_blocks[k] == in_memory(#[trigger] blocks[m]),
{
    let width = text::decimal_digits(blocks.last().0 as nat).len();
    match scheme {
        VolumeScheme::Single => {
            assert(planned_volumes(blocks, scheme, base_name)[i].recovery_blocks[k] == in_memory(
                blocks[k],
            ));
        },
        VolumeScheme::Exponential => {
            lemma_exponential_block(blocks, 1, base_name, width, i, k);
        },
    }
}

/// A volume with the blocks from `from` up to `to`.
fn make_volume(
    blocks: &[(u32, Vec<u8>)],
    from: usize,
    to: usize,
    start: u32,
    base_name: &str,
    width: usize,
) -> (r: VolumeInfo)
    requires
        from < to <= blocks@.len(),
        start <= blocks@[to - 1].0,
        blocks@[to - 1].0 - start < u32::MAX,
    ensures
        r@ == volume_of(
            block_views(blocks@).subrange(from as int, to as int),
            start,
            base_name@,
            width as nat,
        ),
{
    let ghost part = block_views(blocks@).subrange(from as int, to as int);
    let n: usize = blocks.len();
    let mut list: Vec<RecoveryBlock> = Vec::with_capacity(to - from);
    for i in from..to
        invariant
            n == blocks@.len(),
            from < to <= n,
            part == block_views(blocks@).subrange(from as int, to as int),
            list@.len() == i - from,
            forall|k: int|
                0 <= k < list@.len() ==> (#[trigger] list@[k])@ == in_memory(part[k]),
    {
        let block = RecoveryBlock::from_memory(blocks[i].0, blocks[i].1.clone());
        proof {
            assert(part[i - from] == block_views(blocks@)[i as int]);
            assert(block@ =~= in_memory(part[i - from]));
        }
        list.push(block);
    }
    assert(parser::recovery_views(list@) =~= all_in_memory(part));
    let end: u32 = blocks[to - 1].0;
    VolumeInfo {
        path: generate_volume_filename(base_name, start, end, width),
        exponent_start: start,
        exponent_end: end,
        recovery_blocks: list,
    }
}

/// Distribute recovery blocks over volumes, each with its name as its path.
pub fn plan_volumes(
    recovery_blocks: &[(u32, Vec<u8>)],
    scheme: VolumeScheme,
    base_name: &str,
) -> (r: Vec<VolumeInfo>)
    requires
        can_be_named(block_views(recovery_blocks@), scheme),
    ensures
        volume_views(r@) == planned_volumes(block_views(recovery_blocks@), scheme, base_name@),
{
    let ghost blocks = block_views(recovery_blocks@);
    let ghost planned = planned_volumes(blocks, scheme, base_name@);
    let n: usize = recovery_blocks.len();
    let mut volumes: Vec<VolumeInfo> = Vec::new();
    if n == 0 {
        assert(volume_views(volumes@) =~= seq![]);
        return volumes;
    }
    proof {
        law_base_name_names_volumes(blocks, scheme, base_name@, seq![]);
        let unnamed = planned_volumes(blocks, scheme, seq![]);
        assert forall|k: int| 0 <= k < planned.len() implies (#[trigger] planned[k]).exponent_start
            <= planned[k].exponent_end && planned[k].exponent_end - planned[k].exponent_start
            < u32::MAX by {
            assert(unnamed[k].exponent_start <= unnamed[k].exponent_end);
        }
    }
    let max_exponent: u32 = recovery_blocks[n - 1].0;
    assert(max_exponent == blocks[n - 1].0);
    let width: usize = calculate_padding_width(max_exponent);
    match scheme {
        VolumeScheme::Single => {
            assert(blocks.subrange(0, n as int) =~= blocks);
            assert(planned[0].exponent_end == max_exponent);
            volumes.push(make_volume(recovery_blocks, 0, n, 0, base_name, width));
            assert(volume_views(volumes@) =~= planned_volumes(blocks, scheme, base_name@));
        },
        VolumeScheme::Exponential => {
            let mut done: usize = 0;
            let mut target: usize = 1;
            let ghost all = exponential_volumes(blocks, 1, base_name@, width as nat);
            assert(blocks.skip(0) =~= blocks);
            assert(volume_views(volumes@) + all =~= all);
            while done < n
                invariant
                    n == recovery_blocks@.len(),
                    blocks == block_views(recovery_blocks@),
                    ranges_fit(all),
                    done <= n,
                    1 <= target <= 1024,
                    all == volume_views(volumes@) + exponential_volumes(
                        blocks.skip(done as int),
                        target as nat,
                        base_name@,
                        width as nat,
                    ),
                decreases n - done,
            {
                let end: usize = if n - done <= target {
                    n
                } else {
                    done + target
                };
                let ghost before = volume_views(volumes@);
                let ghost left = blocks.skip(done as int);
                let ghost next = next_target(target as nat);
                proof {
                    let here = exponential_volumes(left, target as nat, base_name@, width as nat);
                    assert(here.len() > 0);
                    assert(all[before.len() as int] == here[0]);
                    assert(here[0].exponent_start == left[0].0);
                    assert(here[0].exponent_end == blocks[end - 1].0);
                    assert(recovery_blocks@[done as int].0 == blocks[done as int].0);
                    assert(recovery_blocks@[end - 1].0 == blocks[end - 1].0);
                    assert(left[0] == blocks[done as int]);
                }
                let start: u32 = recovery_blocks[done].0;
                let volume = make_volume(recovery_blocks, done, end, start, base_name, width);
                let ghost seen = volume@;
                volumes.push(volume);
                proof {
                    assert(volume_views(volumes@) =~= before.push(seen));
                    let rest = exponential_volumes(
                        blocks.skip(end as int),
                        next,
                        base_name@,
                        width as nat,
                    );
                    if left.len() <= target {
                        assert(blocks.subrange(done as int, end as int) =~= left);
                        assert(rest =~= seq![]);
                        assert(before + seq![seen] =~= before.push(seen) + rest);
                    } else {
                        assert(blocks.subrange(done as int, end as int) =~= left.take(
                            target as int,
                        ));
                        assert(left.skip(target as int) =~= blocks.skip(end as int));
                        assert(before + (seq![seen] + rest) =~= before.push(seen) + rest);
                    }
                }
                done = end;
                target = if 2 * target <= 1024 {
                    2 * target
                } else {
                    1024
                };
            }
            assert(all =~= volume_views(volumes@));
        },
    }
    volumes
}

/// The name of a volume is one part of a path, if the base name is one.
proof fn lemma_volume_name(base_name: Seq<char>, start: u32, end: u32, width: nat)
    requires
        paths::is_part(base_name),
    ensures
        paths::is_part(volume_name(base_name, start, end, width)),
{
    reveal_strlit(".vol");
    reveal_strlit("+");
    reveal_strlit(".par2");
    let a = text::padded_digits(start as nat, width);
    let b = text::padded_digits((end - start + 1) as nat, width);
    text::lemma_all_digits(start as nat, width);
    text::lemma_all_digits((end - start + 1) as nat, width);
    let name = volume_name(base_name, start, end, width);
    assert(name[0] == base_name[0]);
    let n1 = base_name.len();
    let n2 = n1 + 4;
    let n3 = n2 + a.len();
    let n4 = n3 + 1;
    let n5 = n4 + b.len();
    assert forall|i: int| 0 <= i < name.len() implies !paths::separates(#[trigger] name[i]) by {
        if i < n1 {
            assert(name[i] == base_name[i]);
        } else if i < n2 {
            assert(name[i] == ".vol"@[i - n1]);
        } else if i < n3 {
            assert(name[i] == a[i - n2]);
        } else if i < n4 {
            assert(name[i] == "+"@[i - n3]);
        } else if i < n5 {
            assert(name[i] == b[i - n4]);
        } else {
            assert(name[i] == ".par2"@[i - n5]);
        }
    }
}

proof fn lemma_exponential_labels(
    blocks: Seq<(u32, Seq<u8>)>,
    target: nat,
    base_name: Seq<char>,
    width: nat,
)
    requires
        paths::is_part(base_name),
    ensures
        forall|i: int|
            0 <= i < exponential_volumes(blocks, target, base_name, width).len()
                ==> paths::is_part(
                (#[trigger] exponential_volumes(blocks, target, base_name, width)[i]).path,
            ),
    decreases blocks.len(),
{
    if blocks.len() > 0 && target > 0 {
        let all = exponential_volumes(blocks, target, base_name, width);
        lemma_volume_name(base_name, blocks[0].0, blocks.last().0, width);
        if blocks.len() > target {
            let rest = blocks.skip(target as int);
            let later = exponential_volumes(rest, next_target(target), base_name, width);
            lemma_exponential_labels(rest, next_target(target), base_name, width);
            lemma_volume_name(base_name, blocks[0].0, blocks.take(target as int).last().0, width);
            assert forall|i: int| 0 <= i < all.len() implies paths::is_part(
                (#[trigger] all[i]).path,
            ) by {
                if i > 0 {
                    assert(all[i] == later[i - 1]);
                }
            }
        }
    }
}

/// The names of planned volumes are parts of paths, if the base name is one.
proof fn lemma_planned_labels(
    blocks: Seq<(u32, Seq<u8>)>,
    scheme: VolumeScheme,
    base_name: Seq<char>,
)
    requires
        paths::is_part(base_name),
    ensures
        forall|i: int|
            0 <= i < planned_volumes(blocks, scheme, base_name).len() ==> paths::is_part(
                (#[trigger] planned_volumes(blocks, scheme, base_name)[i]).path,
            ),
{
    if blocks.len() > 0 {
        let width = text::decimal_digits(blocks.last().0 as nat).len();
        lemma_volume_name(base_name, 0, blocks.last().0, width);
        lemma_exponential_labels(blocks, 1, base_name, width);
    }
}

/// The volumes have the names of the planned ones, and lie in the directory.
pub open spec fn are_in(a: Seq<VolumeView>, b: Seq<VolumeView>, directory: Seq<char>) -> bool {
    a.len() == b.len() && forall|i: int|
        0 <= i < a.len() ==> paths::lies_in((#[trigger] a[i]).path, directory, b[i].path)
}

/// The volumes are the planned ones, whatever their paths.
pub open spec fn same_but_paths(a: Seq<VolumeView>, b: Seq<VolumeView>) -> bool {
    &&& a.len() == b.len()
    &&& forall|i: int|
        0 <= i < a.len() ==> #[trigger] a[i] == (VolumeView { path: a[i].path, ..b[i] })
}

/// Distribute recovery blocks over volumes. The volumes are named after the last part of
/// `base_path`, and lie in its directory.
///
/// How a base path that is not simple is taken apart depends on the operating system: the paths are then
/// left open.
pub fn split_into_volumes(
    recovery_blocks: Vec<(u32, Vec<u8>)>,
    scheme: VolumeScheme,
    base_path: &str,
) -> (r: Result<Vec<VolumeInfo>>)
    requires
        can_be_named(block_views(recovery_blocks@), scheme),
    ensures
        r matches Ok(volumes) && same_but_paths(
            volume_views(volumes@),
            planned_volumes(block_views(recovery_blocks@), scheme, seq![]),
        ),
        r matches Ok(volumes) ==> paths::is_simple(base_path@) ==> are_in(
            volume_views(volumes@),
            planned_volumes(block_views(recovery_blocks@), scheme, paths::stem(base_path@)),
            paths::directory(base_path@),
        ),
{
    let base_name: String = match paths::file_stem(base_path) {
        Some(stem) => stem,
        None => "archive".to_owned(),
    };
    let parent: String = match paths::parent(base_path) {
        Some(p) => p,
        None => ".".to_owned(),
    };
    let mut volumes = plan_volumes(recovery_blocks.as_slice(), scheme, base_name.as_str());
    let n: usize = volumes.len();
    let ghost plan = volume_views(volumes@);
    let ghost simple = paths::is_simple(base_path@);
    let ghost place = paths::directory(base_path@);
    proof {
        if simple {
            paths::lemma_simple(base_path@);
            lemma_planned_labels(block_views(recovery_blocks@), scheme, base_name@);
        }
    }
    for i in 0..n
        invariant
            n == volumes@.len(),
            n == plan.len(),
            simple ==> paths::is_directory(place) && parent@ == place,
            simple ==> forall|k: int| 0 <= k < n ==> paths::is_part((#[trigger] plan[k]).path),
            forall|k: int|
                0 <= k < n ==> (#[trigger] volumes@[k])@ == (VolumeView {
                    path: volumes@[k].path@,
                    ..plan[k]
                }),
            forall|k: int| i <= k < n ==> (#[trigger] volumes@[k]).path@ == plan[k].path,
            simple ==> forall|k: int|
                0 <= k < i ==> paths::lies_in(
                    (#[trigger] volumes@[k]).path@,
                    place,
                    plan[k].path,
                ),
    {
        assert(volumes@[i as int].path@ == plan[i as int].path);
        let path = paths::join(parent.as_str(), volumes[i].path.as_str());
        volumes[i].path = path;
    }
    proof {
        let views = volume_views(volumes@);
        assert forall|k: int| 0 <= k < views.len() implies #[trigger] views[k] == (VolumeView {
            path: views[k].path,
            ..plan[k]
        }) by {
            assert(volumes@[k]@ == views[k]);
        }
        let blocks = block_views(recovery_blocks@);
        let unnamed = planned_volumes(blocks, scheme, seq![]);
        law_base_name_names_volumes(blocks, scheme, base_name@, seq![]);
        assert forall|k: int| 0 <= k < views.len() implies #[trigger] views[k] == (VolumeView {
            path: views[k].path,
            ..unnamed[k]
        }) by {
            assert(plan[k] == (VolumeView { path: plan[k].path, ..unnamed[k] }));
        }
    }
    Ok(volumes)
}

proof fn lemma_exponential_starts(
    blocks: Seq<(u32, Seq<u8>)>,
    target: nat,
    base_name: Seq<char>,
    width: nat,
)
    requires
        forall|i: int, j: int| 0 <= i < j < blocks.len() ==> blocks[i].0 < blocks[j].0,
    ensures
        ({
            let all = exponential_volumes(blocks, target, base_name, width);
            &&& forall|k: int|
                0 <= k < all.len() ==> (#[trigger] all[k]).path == volume_name(
                    base_name,
                    all[k].exponent_start,
                    all[k].exponent_end,
                    width,
                ) && blocks[0].0 <= all[k].exponent_start <= blocks.last().0
            &&& forall|i: int, j: int|
                0 <= i < j < all.len() ==> (#[trigger] all[i]).exponent_start < (
                #[trigger] all[j]).exponent_start
        }),
    decreases blocks.len(),
{
    if blocks.len() > target && target > 0 {
        let rest = blocks.skip(target as int);
        lemma_exponential_starts(rest, next_target(target), base_name, width);
        let later = exponential_volumes(rest, next_target(target), base_name, width);
        let all = exponential_volumes(blocks, target, base_name, width);
        assert(rest[0].0 == blocks[target as int].0);
        assert(rest.last() == blocks.last());
        assert forall|k: int| 0 < k < all.len() implies #[trigger] all[k] == later[k - 1] by {}
    }
}

/// Names of volumes tell their first exponents.
proof fn lemma_name_tells_start(
    base_name: Seq<char>,
    a: (u32, u32),
    b: (u32, u32),
    last: u32,
    width: nat,
)
    requires
        width == text::decimal_digits(last as nat).len(),
        a.0 <= last,
        b.0 <= last,
        volume_name(base_name, a.0, a.1, width) == volume_name(base_name, b.0, b.1, width),
    ensures
        a.0 == b.0,
{
    reveal_strlit(".vol");
    text::lemma_digits_ascend(a.0 as nat, last as nat);
    text::lemma_digits_ascend(b.0 as nat, last as nat);
    let from = base_name.len() as int + 4;
    let x = text::padded_digits(a.0 as nat, width);
    let y = text::padded_digits(b.0 as nat, width);
    let p = volume_name(base_name, a.0, a.1, width);
    let q = volume_name(base_name, b.0, b.1, width);
    assert(x.len() == width);
    assert(y.len() == width);
    assert(p.subrange(from, from + width) =~= x);
    assert(q.subrange(from, from + width) =~= y);
    text::law_padded_digits(a.0 as nat, width);
    text::law_padded_digits(b.0 as nat, width);
}

/// No two volumes have the same name.
pub proof fn law_volume_names_differ(
    blocks: Seq<(u32, Seq<u8>)>,
    scheme: VolumeScheme,
    base_name: Seq<char>,
)
    requires
        forall|i: int, j: int| 0 <= i < j < blocks.len() ==> blocks[i].0 < blocks[j].0,
    ensures
        forall|i: int, j: int|
            0 <= i < j < planned_volumes(blocks, scheme, base_name).len() ==> (
            #[trigger] planned_volumes(blocks, scheme, base_name)[i]).path != (
            #[trigger] planned_volumes(blocks, scheme, base_name)[j]).path,
{
    let all = planned_volumes(blocks, scheme, base_name);
    if blocks.len() > 0 && scheme == VolumeScheme::Exponential {
        let last = blocks.last().0;
        let width = text::decimal_digits(last as nat).len();
        lemma_exponential_starts(blocks, 1, base_name, width);
        assert forall|i: int, j: int| 0 <= i < j < all.len() implies (#[trigger] all[i]).path != (
        #[trigger] all[j]).path by {
            if all[i].path == all[j].path {
                lemma_name_tells_start(
                    base_name,
                    (all[i].exponent_start, all[i].exponent_end),
                    (all[j].exponent_start, all[j].exponent_end),
                    last,
                    width,
                );
            }
        }
    }
}

/// The path of a planned volume is its name.
pub proof fn lemma_path_is_name(
    blocks: Seq<(u32, Seq<u8>)>,
    scheme: VolumeScheme,
    base_name: Seq<char>,
    k: int,
)
    requires
        forall|i: int, j: int| 0 <= i < j < blocks.len() ==> blocks[i].0 < blocks[j].0,
        0 <= k < planned_volumes(blocks, scheme, base_name).len(),
    ensures
        ({
            let volume = planned_volumes(blocks, scheme, base_name)[k];
            volume.path == volume_name(
                base_name,
                volume.exponent_start,
                volume.exponent_end,
                text::decimal_digits(blocks.last().0 as nat).len(),
            )
        }),
{
    let width = text::decimal_digits(blocks.last().0 as nat).len();
    lemma_exponential_starts(blocks, 1, base_name, width);
}

/// A name whose stem is the base name of a volume is not the name of the volume.
pub proof fn law_volume_name_is_new(
    path: Seq<char>,
    start: u32,
    end: u32,
    width: nat,
)
    ensures
        paths::last_part(path) != volume_name(paths::stem(path), start, end, width),
{
    let name = volume_name(paths::stem(path), start, end, width);
    if paths::last_part(path) == name {
        reveal_strlit(".vol");
        reveal_strlit("+");
        reveal_strlit(".par2");
        let n = name.len() as int;
        paths::lemma_dot_before(name, n);
        let k = paths::dot_before(name, n);
        assert(name[n - 5] == '.');
        assert(k >= n - 5);
        assert(paths::stem(path).len() == k);
    }
}

/// The volumes hold twice as many blocks each time, from one up to 1024.
pub proof fn law_volumes_double(k: nat)
    ensures
        doubled(0) == 1,
        k < 10 ==> doubled(k + 1) == 2 * doubled(k) && doubled(k) <= 512,
        k >= 10 ==> doubled(k) == 1024,
    decreases k,
{
    reveal_with_fuel(doubled, 12);
    if k > 10 {
        law_volumes_double((k - 1) as nat);
    }
}

/// The name of a volume: the base name, `.vol`, the first exponent, a plus sign, the number of exponents,
/// and `.par2`.
pub proof fn law_volumes_are_named(base_name: Seq<char>, start: u32, end: u32, width: nat)
    requires
        start <= end,
    ensures
        ({
            let first = text::padded_digits(start as nat, width);
            let count = text::padded_digits((end - start + 1) as nat, width);
            &&& volume_name(base_name, start, end, width) == base_name + seq!['.', 'v', 'o', 'l']
                + first + seq!['+'] + count + seq!['.', 'p', 'a', 'r', '2']
            &&& text::digits_value(first) == start
            &&& text::digits_value(count) == end - start + 1
            &&& first.len() >= width
            &&& count.len() >= width
        }),
{
    reveal_strlit(".vol");
    reveal_strlit("+");
    reveal_strlit(".par2");
    assert(".vol"@ =~= seq!['.', 'v', 'o', 'l']);
    assert("+"@ =~= seq!['+']);
    assert(".par2"@ =~= seq!['.', 'p', 'a', 'r', '2']);
    text::law_numbers_are_written_in_decimal(start as nat, width);
    text::law_numbers_are_written_in_decimal((end - start + 1) as nat, width);
}

/// Each volume is named after the exponents of its first and last block, with as many digits as the last
/// exponent of all has; and it tells these exponents. Where all blocks are in one volume, it counts from 0.
pub proof fn law_volumes_tell_their_exponents(
    blocks: Seq<(u32, Seq<u8>)>,
    scheme: VolumeScheme,
    base_name: Seq<char>,
    i: int,
)
    requires
        0 <= i < planned_volumes(blocks, scheme, base_name).len(),
    ensures
        ({
            let v = planned_volumes(blocks, scheme, base_name)[i];
            let width = text::decimal_digits(blocks.last().0 as nat).len();
            &&& v.recovery_blocks.len() > 0
            &&& v.exponent_start == (if scheme == VolumeScheme::Single {
                0
            } else {
                v.recovery_blocks[0].exponent
            })
            &&& v.exponent_end == v.recovery_blocks.last().exponent
            &&& v.path == volume_name(base_name, v.exponent_start, v.exponent_end, width)
        }),
{
    let width = text::decimal_digits(blocks.last().0 as nat).len();
    match scheme {
        VolumeScheme::Single => {},
        VolumeScheme::Exponential => {
            lemma_exponential_labels_tell(blocks, 1, base_name, width, i);
        },
    }
}

proof fn lemma_exponential_labels_tell(
    blocks: Seq<(u32, Seq<u8>)>,
    target: nat,
    base_name: Seq<char>,
    width: nat,
    i: int,
)
    requires
        0 <= i < exponential_volumes(blocks, target, base_name, width).len(),
    ensures
        ({
            let v = exponential_volumes(blocks, target, base_name, width)[i];
            &&& v.recovery_blocks.len() > 0
            &&& v.exponent_start == v.recovery_blocks[0].exponent
            &&& v.exponent_end == v.recovery_blocks.last().exponent
            &&& v.path == volume_name(base_name, v.exponent_start, v.exponent_end, width)
        }),
    decreases blocks.len(),
{
    if blocks.len() > target && target > 0 && i > 0 {
        lemma_exponential_labels_tell(
            blocks.skip(target as int),
            next_target(target),
            base_name,
            width,
            i - 1,
        );
    }
}

} // verus!
