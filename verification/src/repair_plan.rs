//! What has to be repaired, and from what.

use vstd::prelude::*;
use vstd::string::*;

use crate::blocks;
use crate::creator;
use crate::creator::{invalid, invalid_number, PlanError};
use crate::error::{Par2Error, Result};
use crate::galois::sums;
use crate::loader::Par2File;
use crate::ordering;
use crate::packets::FileHash;
use crate::parser;
use crate::parser::{FileInfo, FileView, RecoveryView};
use crate::solver;
use crate::verify::{BlockDamage, VerificationResult};

verus! {

/// The blocks of a file among all data blocks: the first one, and how many there are. Of the first
/// `n` files the last one with the ID counts.
pub open spec fn range_of(files: Seq<FileView>, block_size: int, id: Seq<u8>, n: nat) -> Option<
    (int, int),
>
    decreases n,
{
    if n == 0 {
        None
    } else if files[n - 1].file_id == id {
        Some(
            (
                creator::total_blocks(creator::lengths_of(files).take(n - 1), block_size),
                blocks::block_count(files[n - 1].length as int, block_size),
            ),
        )
    } else {
        range_of(files, block_size, id, (n - 1) as nat)
    }
}

/// The numbers from `start` on.
pub open spec fn counted(start: int, count: int) -> Seq<int> {
    Seq::new(count as nat, |i: int| start + i)
}

/// The data blocks of files that were not found.
pub open spec fn missing_blocks(files: Seq<FileView>, block_size: int, ids: Seq<Seq<u8>>) -> Seq<int>
    decreases ids.len(),
{
    if ids.len() == 0 {
        seq![]
    } else {
        let before = missing_blocks(files, block_size, ids.drop_last());
        match range_of(files, block_size, ids.last(), files.len()) {
            Some((start, count)) => before + counted(start, count),
            None => before,
        }
    }
}

/// The data blocks of a damaged file that are damaged: those that are known to be, or all.
pub open spec fn damaged_blocks_of(
    range: (int, int),
    damages: Map<Seq<u8>, BlockDamage>,
    id: Seq<u8>,
) -> Seq<int> {
    if damages.dom().contains(id) {
        let list = damages[id].damaged_block_indices@;
        Seq::new(list.len(), |i: int| range.0 + list[i])
    } else {
        counted(range.0, range.1)
    }
}

/// The data blocks of damaged files that are damaged.
pub open spec fn damaged_blocks(
    files: Seq<FileView>,
    block_size: int,
    ids: Seq<Seq<u8>>,
    damages: Map<Seq<u8>, BlockDamage>,
) -> Seq<int>
    decreases ids.len(),
{
    if ids.len() == 0 {
        seq![]
    } else {
        let before = damaged_blocks(files, block_size, ids.drop_last(), damages);
        match range_of(files, block_size, ids.last(), files.len()) {
            Some(range) => before + damaged_blocks_of(range, damages, ids.last()),
            None => before,
        }
    }
}

/// All data blocks that have to be restored.
pub open spec fn blocks_to_restore(par2: Par2File, result: VerificationResult) -> Seq<int> {
    let files = parser::file_views(par2.files_in_order@);
    missing_blocks(files, par2.block_size as int, parser::id_views(result.missing_files@))
        + damaged_blocks(
        files,
        par2.block_size as int,
        parser::id_views(result.damaged_files@),
        result.block_damages@,
    )
}

/// The number of data blocks of a set.
pub open spec fn data_block_count(par2: Par2File) -> int {
    creator::total_blocks(
        creator::lengths_of(parser::file_views(par2.files_in_order@)),
        par2.block_size as int,
    )
}

/// What is wrong with the numbers of blocks of a set.
pub open spec fn numbering_error(par2: Par2File) -> Option<PlanError> {
    let lengths = creator::lengths_of(parser::file_views(par2.files_in_order@));
    let recovery = par2.recovery_blocks@.len();
    match creator::counting_error(lengths, par2.block_size as int, 0) {
        Some(e) => Some(e),
        None => if recovery > creator::MAX_BLOCKS {
            Some(PlanError::RecoveryBlocks(recovery))
        } else if data_block_count(par2) + recovery > creator::MAX_BLOCKS {
            Some(PlanError::AllBlocks)
        } else {
            None
        },
    }
}

/// What is wrong with a set that is to be repaired.
pub open spec fn set_error(par2: Par2File) -> Option<Seq<char>> {
    if par2.block_size == 0 {
        Some("Invalid PAR2 data: block size is zero"@)
    } else if par2.block_size % 4 != 0 {
        Some("Invalid PAR2 data: block size not aligned"@)
    } else if par2.block_size > usize::MAX {
        Some("Invalid PAR2 data: block size exceeds platform limits"@)
    } else {
        match numbering_error(par2) {
            Some(e) => Some(
                creator::plan_message(
                    e,
                    creator::names_of(parser::file_views(par2.files_in_order@)),
                ),
            ),
            None => None,
        }
    }
}

/// What has to be restored, and from what.
pub struct RepairPlan {
    /// Number of data blocks.
    pub total_blocks: usize,
    /// The data blocks that have to be restored.
    pub damaged: Vec<usize>,
    /// The recovery blocks that are used, by their indices, with ascending exponents.
    pub recovery: Vec<usize>,
}

/// What decides the places of recovery blocks: their exponents.
pub open spec fn exponent_keys(blocks: Seq<RecoveryView>) -> Seq<(u64, u128)> {
    Seq::new(blocks.len(), |i: int| (blocks[i].exponent as u64, 0u128))
}

/// The recovery blocks are the first `m` by their exponents. Blocks with the same exponent stay as
/// they stand.
pub open spec fn are_first_by_exponent(
    used: Seq<usize>,
    blocks: Seq<RecoveryView>,
    m: nat,
) -> bool {
    exists|order: Seq<int>|
        #[trigger] ordering::is_stable_order(exponent_keys(blocks), order) && m <= order.len()
            && solver::indices(used) == order.take(m as int)
}

/// The plan is the one for the set and what was found.
pub open spec fn is_plan(plan: RepairPlan, par2: Par2File, result: VerificationResult) -> bool {
    &&& plan.total_blocks == data_block_count(par2)
    &&& plan.total_blocks + par2.recovery_blocks@.len() <= creator::MAX_BLOCKS
    &&& solver::indices(plan.damaged@) == blocks_to_restore(par2, result)
    &&& are_first_by_exponent(
        plan.recovery@,
        parser::recovery_views(par2.recovery_blocks@),
        plan.damaged@.len(),
    )
}

/// The numbers of damaged blocks can be told.
pub open spec fn numbers_fit(numbers: Seq<int>) -> bool {
    forall|i: int| 0 <= i < numbers.len() ==> #[trigger] numbers[i] <= usize::MAX
}

/// Unless there are not enough recovery blocks, the blocks that have to be restored are data blocks
/// of the set.
pub open spec fn are_numbered(par2: Par2File, result: VerificationResult) -> bool {
    let numbers = blocks_to_restore(par2, result);
    numbers.len() <= par2.recovery_blocks@.len() ==> forall|i: int|
        0 <= i < numbers.len() ==> #[trigger] numbers[i] < data_block_count(par2)
}

/// What a plan is good for.
pub proof fn lemma_plan(plan: RepairPlan, par2: Par2File, result: VerificationResult)
    requires
        is_plan(plan, par2, result),
        are_numbered(par2, result),
    ensures
        plan.damaged@.len() <= par2.recovery_blocks@.len(),
        plan.recovery@.len() == plan.damaged@.len(),
        crate::reed_solomon::are_data_indices(plan.damaged@, plan.total_blocks as nat),
        forall|i: int|
            0 <= i < plan.recovery@.len() ==> #[trigger] plan.recovery@[i]
                < par2.recovery_blocks@.len(),
{
    let blocks = parser::recovery_views(par2.recovery_blocks@);
    let m = plan.damaged@.len();
    let order = choose|order: Seq<int>|
        #[trigger] ordering::is_stable_order(exponent_keys(blocks), order) && m <= order.len()
            && solver::indices(plan.recovery@) == order.take(m as int);
    assert(sums::is_permutation(order, blocks.len()));
    let used = solver::indices(plan.recovery@);
    assert(used.len() == plan.recovery@.len());
    assert forall|i: int| 0 <= i < plan.recovery@.len() implies #[trigger] plan.recovery@[i]
        < par2.recovery_blocks@.len() by {
        assert(used[i] == order[i]);
    }
    let numbers = solver::indices(plan.damaged@);
    assert(numbers.len() == m);
    assert forall|i: int| 0 <= i < m implies #[trigger] plan.damaged@[i]
        < plan.total_blocks by {
        assert(numbers[i] < data_block_count(par2));
    }
}

/// Find the blocks of a file among all data blocks.
pub(crate) fn find_range(files: &Vec<FileInfo>, block_size: u64, id: &FileHash) -> (r: Option<(usize, usize)>)
    requires
        block_size > 0,
        creator::counting_error(
            creator::lengths_of(parser::file_views(files@)),
            block_size as int,
            0,
        ) is None,
    ensures
        match range_of(
            parser::file_views(files@),
            block_size as int,
            id@,
            files@.len(),
        ) {
            Some((start, count)) => r matches Some(v) && v.0 == start && v.1 == count && start
                + count <= creator::MAX_BLOCKS,
            None => r is None,
        },
{
    let ghost views = parser::file_views(files@);
    let ghost lengths = creator::lengths_of(views);
    let n: usize = files.len();
    let mut found: Option<(usize, usize)> = None;
    let mut total: usize = 0;
    assert(lengths.take(0) =~= seq![]);
    proof {
        creator::lemma_counted(lengths, block_size as int, 0);
    }
    for i in 0..n
        invariant
            block_size > 0,
            n == files@.len(),
            views == parser::file_views(files@),
            lengths == creator::lengths_of(views),
            creator::total_blocks(lengths, block_size as int) <= creator::MAX_BLOCKS,
            total == creator::total_blocks(lengths.take(i as int), block_size as int),
            match range_of(views, block_size as int, id@, i as nat) {
                Some((start, count)) => found matches Some(v) && v.0 == start && v.1 == count
                    && start + count <= creator::MAX_BLOCKS,
                None => found is None,
            },
    {
        let count: u64 = blocks::count_blocks(files[i].length, block_size);
        proof {
            assert(views[i as int] == files@[i as int]@);
            assert(lengths.take(i + 1).drop_last() =~= lengths.take(i as int));
            assert(lengths.take(i + 1).last() == files@[i as int].length);
            lemma_total_monotone(lengths, block_size as int, i + 1);
        }
        if crate::hash::same_digest(&files[i].file_id, id) {
            found = Some((total, count as usize));
        }
        total = total + count as usize;
    }
    found
}

pub proof fn lemma_total_monotone(lengths: Seq<u64>, block_size: int, n: int)
    requires
        block_size > 0,
        0 <= n <= lengths.len(),
    ensures
        0 <= creator::total_blocks(lengths.take(n), block_size) <= creator::total_blocks(
            lengths,
            block_size,
        ),
    decreases lengths.len(),
{
    if lengths.len() > 0 {
        blocks::law_block_count(lengths.last() as int, block_size, 0);
        if n < lengths.len() {
            lemma_total_monotone(lengths.drop_last(), block_size, n);
            assert(lengths.drop_last().take(n) =~= lengths.take(n));
        } else {
            lemma_total_monotone(lengths.drop_last(), block_size, lengths.len() - 1);
            assert(lengths.drop_last().take(lengths.len() - 1) =~= lengths.drop_last());
            assert(lengths.take(n) =~= lengths);
        }
    } else {
        assert(lengths.take(n) =~= lengths);
    }
}

/// Append the numbers from `start` on.
fn push_counted(list: &mut Vec<usize>, start: usize, count: usize)
    requires
        start + count <= usize::MAX,
    ensures
        solver::indices(final(list)@) == solver::indices(old(list)@) + counted(
            start as int,
            count as int,
        ),
{
    let ghost before = solver::indices(list@);
    assert(before + counted(start as int, 0) =~= before);
    for i in 0..count
        invariant
            start + count <= usize::MAX,
            solver::indices(list@) == before + counted(start as int, i as int),
    {
        let ghost prior = list@;
        list.push(start + i);
        assert(solver::indices(list@) =~= solver::indices(prior).push(start + i));
        assert(solver::indices(list@) =~= before + counted(start as int, i + 1));
    }
}

/// Append the data blocks of files that were not found.
fn push_missing(list: &mut Vec<usize>, par2: &Par2File, ids: &Vec<FileHash>)
    requires
        par2.block_size > 0,
        creator::counting_error(
            creator::lengths_of(parser::file_views(par2.files_in_order@)),
            par2.block_size as int,
            0,
        ) is None,
    ensures
        solver::indices(final(list)@) == solver::indices(old(list)@) + missing_blocks(
            parser::file_views(par2.files_in_order@),
            par2.block_size as int,
            parser::id_views(ids@),
        ),
{
    let ghost files = parser::file_views(par2.files_in_order@);
    let ghost size = par2.block_size as int;
    let ghost views = parser::id_views(ids@);
    let ghost before = solver::indices(list@);
    let n: usize = ids.len();
    assert(before + missing_blocks(files, size, views.take(0)) =~= before);
    for i in 0..n
        invariant
            n == ids@.len(),
            par2.block_size > 0,
            files == parser::file_views(par2.files_in_order@),
            creator::counting_error(creator::lengths_of(files), par2.block_size as int, 0) is None,
            size == par2.block_size as int,
            views == parser::id_views(ids@),
            solver::indices(list@) == before + missing_blocks(files, size, views.take(i as int)),
    {
        proof {
            assert(views.take(i + 1).drop_last() =~= views.take(i as int));
            assert(views.take(i + 1).last() == ids@[i as int]@);
        }
        if let Some((start, count)) = find_range(&par2.files_in_order, par2.block_size, &ids[i]) {
            push_counted(list, start, count);
        }
        assert(solver::indices(list@) =~= before + missing_blocks(files, size, views.take(i + 1)));
    }
    assert(views.take(n as int) =~= views);
}

/// Append the data blocks of a damaged file that are damaged.
fn push_damaged_of(list: &mut Vec<usize>, range: (usize, usize), damage: &BlockDamage)
    requires
        forall|i: int|
            0 <= i < damage.damaged_block_indices@.len() ==> range.0 + (
            #[trigger] damage.damaged_block_indices@[i]) <= usize::MAX,
    ensures
        solver::indices(final(list)@) == solver::indices(old(list)@) + Seq::new(
            damage.damaged_block_indices@.len(),
            |i: int| range.0 + damage.damaged_block_indices@[i],
        ),
{
    let ghost before = solver::indices(list@);
    let ghost numbers = Seq::new(
        damage.damaged_block_indices@.len(),
        |i: int| range.0 + damage.damaged_block_indices@[i],
    );
    let n: usize = damage.damaged_block_indices.len();
    assert(before + numbers.take(0) =~= before);
    for i in 0..n
        invariant
            n == damage.damaged_block_indices@.len(),
            numbers == Seq::new(
                damage.damaged_block_indices@.len(),
                |i: int| range.0 + damage.damaged_block_indices@[i],
            ),
            forall|i: int|
                0 <= i < damage.damaged_block_indices@.len() ==> range.0 + (
                #[trigger] damage.damaged_block_indices@[i]) <= usize::MAX,
            solver::indices(list@) == before + numbers.take(i as int),
    {
        assert(range.0 + damage.damaged_block_indices@[i as int] <= usize::MAX);
        let ghost prior = list@;
        list.push(range.0 + damage.damaged_block_indices[i]);
        assert(solver::indices(list@) =~= solver::indices(prior).push(numbers[i as int]));
        assert(solver::indices(list@) =~= before + numbers.take(i + 1));
    }
    assert(numbers.take(n as int) =~= numbers);
}

/// Append the data blocks of damaged files that are damaged.
fn push_damaged(list: &mut Vec<usize>, par2: &Par2File, result: &VerificationResult)
    requires
        par2.block_size > 0,
        creator::counting_error(
            creator::lengths_of(parser::file_views(par2.files_in_order@)),
            par2.block_size as int,
            0,
        ) is None,
        result.block_damages.wf(),
        numbers_fit(
            damaged_blocks(
                parser::file_views(par2.files_in_order@),
                par2.block_size as int,
                parser::id_views(result.damaged_files@),
                result.block_damages@,
            ),
        ),
    ensures
        solver::indices(final(list)@) == solver::indices(old(list)@) + damaged_blocks(
            parser::file_views(par2.files_in_order@),
            par2.block_size as int,
            parser::id_views(result.damaged_files@),
            result.block_damages@,
        ),
{
    let ghost files = parser::file_views(par2.files_in_order@);
    let ghost size = par2.block_size as int;
    let ghost views = parser::id_views(result.damaged_files@);
    let ghost damages = result.block_damages@;
    let ghost all = damaged_blocks(files, size, views, damages);
    let ghost before = solver::indices(list@);
    let n: usize = result.damaged_files.len();
    assert(before + damaged_blocks(files, size, views.take(0), damages) =~= before);
    for i in 0..n
        invariant
            n == result.damaged_files@.len(),
            par2.block_size > 0,
            files == parser::file_views(par2.files_in_order@),
            creator::counting_error(creator::lengths_of(files), par2.block_size as int, 0) is None,
            size == par2.block_size as int,
            views == parser::id_views(result.damaged_files@),
            damages == result.block_damages@,
            result.block_damages.wf(),
            all == damaged_blocks(files, size, views, damages),
            numbers_fit(all),
            solver::indices(list@) == before + damaged_blocks(
                files,
                size,
                views.take(i as int),
                damages,
            ),
    {
        let id: FileHash = result.damaged_files[i];
        let ghost done = damaged_blocks(files, size, views.take(i as int), damages);
        let ghost more = damaged_blocks(files, size, views.take(i + 1), damages);
        proof {
            assert(views.take(i + 1).drop_last() =~= views.take(i as int));
            assert(views.take(i + 1).last() == id@);
            lemma_damaged_prefix(files, size, views, damages, i + 1);
        }
        if let Some((start, count)) = find_range(&par2.files_in_order, par2.block_size, &id) {
            let ghost part = damaged_blocks_of((start as int, count as int), damages, id@);
            assert(more =~= done + part);
            match result.block_damages.get(&id) {
                Some(damage) => {
                    proof {
                        assert forall|k: int|
                            0 <= k < damage.damaged_block_indices@.len() implies start + (
                        #[trigger] damage.damaged_block_indices@[k]) <= usize::MAX by {
                            assert(part[k] == start + damage.damaged_block_indices@[k]);
                            assert(more[done.len() + k] == part[k]);
                            assert(all[done.len() + k] == more[done.len() + k]);
                        }
                    }
                    push_damaged_of(list, (start, count), damage);
                    assert(part =~= Seq::new(
                        damage.damaged_block_indices@.len(),
                        |k: int| start + damage.damaged_block_indices@[k],
                    ));
                },
                None => {
                    push_counted(list, start, count);
                },
            }
            assert(solver::indices(list@) =~= before + (done + part));
        }
        assert(solver::indices(list@) =~= before + more);
    }
    assert(views.take(n as int) =~= views);
}

/// The first damaged files come first.
proof fn lemma_damaged_prefix(
    files: Seq<FileView>,
    size: int,
    ids: Seq<Seq<u8>>,
    damages: Map<Seq<u8>, BlockDamage>,
    n: int,
)
    requires
        0 <= n <= ids.len(),
    ensures
        damaged_blocks(files, size, ids.take(n), damages).len() <= damaged_blocks(
            files,
            size,
            ids,
            damages,
        ).len(),
        forall|k: int|
            0 <= k < damaged_blocks(files, size, ids.take(n), damages).len()
                ==> #[trigger] damaged_blocks(files, size, ids.take(n), damages)[k]
                == damaged_blocks(files, size, ids, damages)[k],
    decreases ids.len(),
{
    if n == ids.len() {
        assert(ids.take(n) =~= ids);
    } else {
        let rest = ids.drop_last();
        lemma_damaged_prefix(files, size, rest, damages, n);
        assert(rest.take(n) =~= ids.take(n));
    }
}

/// The recovery blocks to use: the first `m` by their exponents.
fn first_by_exponent(par2: &Par2File, m: usize) -> (r: Vec<usize>)
    requires
        m <= par2.recovery_blocks@.len(),
    ensures
        are_first_by_exponent(r@, parser::recovery_views(par2.recovery_blocks@), m as nat),
{
    let ghost views = parser::recovery_views(par2.recovery_blocks@);
    let n: usize = par2.recovery_blocks.len();
    let mut keys: Vec<(u64, u128)> = Vec::with_capacity(n);
    for i in 0..n
        invariant
            n == par2.recovery_blocks@.len(),
            views == parser::recovery_views(par2.recovery_blocks@),
            keys@.len() == i,
            forall|k: int| 0 <= k < i ==> #[trigger] keys@[k] == exponent_keys(views)[k],
    {
        keys.push((par2.recovery_blocks[i].exponent as u64, 0u128));
    }
    assert(keys@ =~= exponent_keys(views));
    let mut order = ordering::stable_order(&keys);
    let ghost all = solver::indices(order@);
    assert(all.len() == n);
    order.truncate(m);
    proof {
        assert(solver::indices(order@) =~= all.take(m as int));
        assert(ordering::is_stable_order(exponent_keys(views), all));
    }
    order
}

/// Find out what has to be restored, and from what. It is an error if the set is not valid, or if
/// there are not enough recovery blocks.
pub fn plan_repair(par2: &Par2File, result: &VerificationResult) -> (r: Result<RepairPlan>)
    requires
        result.block_damages.wf(),
        set_error(*par2) is None ==> numbers_fit(blocks_to_restore(*par2, *result)),
    ensures
        match set_error(*par2) {
            Some(text) => r matches Err(Par2Error::InvalidFormat(m)) && m@ == text,
            None => {
                let needed = blocks_to_restore(*par2, *result).len();
                let available = par2.recovery_blocks@.len();
                if needed > available {
                    r matches Err(e) && e == (Par2Error::InsufficientRecovery {
                        needed: needed as usize,
                        available: available as usize,
                    })
                } else {
                    r matches Ok(plan) && is_plan(plan, *par2, *result)
                }
            },
        },
{
    if par2.block_size == 0 {
        return invalid("Invalid PAR2 data: block size is zero");
    }
    if par2.block_size % 4 != 0 {
        return invalid("Invalid PAR2 data: block size not aligned");
    }
    if par2.block_size > usize::MAX as u64 {
        return invalid("Invalid PAR2 data: block size exceeds platform limits");
    }
    let total_blocks: usize = match creator::count_file_blocks(
        par2.files_in_order.as_slice(),
        par2.block_size,
    ) {
        Ok(n) => n,
        Err(e) => {
            return Err(e);
        },
    };
    let available: usize = par2.recovery_blocks.len();
    if available > 65535 {
        return invalid_number(
            "Recovery blocks (",
            available,
            ") exceed GF(2^16) limit (65535)",
        );
    }
    if total_blocks + available > 65535 {
        return invalid("Total blocks (data + recovery) exceed GF(2^16) limit (65535)");
    }
    let mut damaged: Vec<usize> = Vec::new();
    let ghost files = parser::file_views(par2.files_in_order@);
    let ghost size = par2.block_size as int;
    proof {
        assert(solver::indices(damaged@) =~= seq![]);
        let first = missing_blocks(files, size, parser::id_views(result.missing_files@));
        let second = damaged_blocks(
            files,
            size,
            parser::id_views(result.damaged_files@),
            result.block_damages@,
        );
        let all = blocks_to_restore(*par2, *result);
        assert forall|i: int| 0 <= i < second.len() implies #[trigger] second[i]
            <= usize::MAX by {
            assert(all[first.len() + i] == second[i]);
        }
    }
    push_missing(&mut damaged, par2, &result.missing_files);
    push_damaged(&mut damaged, par2, result);
    assert(solver::indices(damaged@) =~= blocks_to_restore(*par2, *result));
    assert(solver::indices(damaged@).len() == damaged@.len());
    let needed: usize = damaged.len();
    if needed > available {
        return Err(Par2Error::InsufficientRecovery { needed, available });
    }
    let recovery = first_by_exponent(par2, needed);
    Ok(RepairPlan { total_blocks, damaged, recovery })
}

} // verus!
