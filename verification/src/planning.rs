//! What a repair restores, and from what.

use vstd::prelude::*;

use crate::creator;
use crate::galois::sums;
use crate::limits;
use crate::loader::Par2File;
use crate::ordering;
use crate::parser;
use crate::parser::FileView;
use crate::repair_plan;
use crate::repair_plan::RepairPlan;
use crate::restoration;
use crate::solver;
use crate::verify::{BlockDamage, VerificationResult};

verus! {

/// Block `x` is one of file `f`, whose ID is listed.
spec fn owns_missing(files: Seq<FileView>, starts: Seq<int>, ids: Seq<Seq<u8>>, f: int, x: int) -> bool {
    &&& 0 <= f < files.len()
    &&& ids.contains(files[f].file_id)
    &&& starts[f] <= x < starts[f + 1]
}

/// Block `x` is one of file `f`, whose ID is listed, and known to be damaged, or nothing is known.
spec fn owns_damaged(
    files: Seq<FileView>,
    starts: Seq<int>,
    ids: Seq<Seq<u8>>,
    damages: Map<Seq<u8>, BlockDamage>,
    f: int,
    x: int,
) -> bool {
    &&& 0 <= f < files.len()
    &&& ids.contains(files[f].file_id)
    &&& is_damaged_block(damages, files[f].file_id, starts[f + 1] - starts[f], x - starts[f])
}

proof fn lemma_ids_contain(ids: Seq<Seq<u8>>, id: Seq<u8>)
    requires
        ids.len() > 0,
    ensures
        ids.contains(id) <==> ids.drop_last().contains(id) || id == ids.last(),
{
    let first = ids.drop_last();
    if ids.contains(id) {
        let k = choose|k: int| 0 <= k < ids.len() && ids[k] == id;
        if k < first.len() {
            assert(first[k] == id);
        }
    }
    if first.contains(id) {
        let k = choose|k: int| 0 <= k < first.len() && first[k] == id;
        assert(ids[k] == id);
    }
    assert(ids[ids.len() - 1] == ids.last());
}

proof fn lemma_missing_contains(
    files: Seq<FileView>,
    block_size: int,
    starts: Seq<int>,
    ids: Seq<Seq<u8>>,
    x: int,
)
    requires
        block_size > 0,
        restoration::ids_differ(files),
        limits::are_counted(creator::lengths_of(files), block_size, starts),
    ensures
        repair_plan::missing_blocks(files, block_size, ids).contains(x) <==> exists|f: int|
            #[trigger]
            owns_missing(files, starts, ids, f, x),
    decreases ids.len(),
{
    let all = repair_plan::missing_blocks(files, block_size, ids);
    if ids.len() > 0 {
        let first = ids.drop_last();
        let id = ids.last();
        let before = repair_plan::missing_blocks(files, block_size, first);
        lemma_missing_contains(files, block_size, starts, first, x);
        lemma_range_is(files, block_size, starts, id);
        let range = repair_plan::range_of(files, block_size, id, files.len());
        if range is Some {
            let (start, count) = range->Some_0;
            let part = repair_plan::counted(start, count);
            lemma_contains_either(before, part, x);
            if start <= x < start + count {
                assert(part[x - start] == x);
            }
            if part.contains(x) {
                let k = choose|k: int| 0 <= k < part.len() && part[k] == x;
                assert(x == start + k);
            }
        }
        if all.contains(x) {
            if before.contains(x) {
                let f = choose|f: int| #[trigger] owns_missing(files, starts, first, f, x);
                lemma_ids_contain(ids, files[f].file_id);
                assert(owns_missing(files, starts, ids, f, x));
            } else {
                let f = choose|f: int| 0 <= f < files.len() && (#[trigger] files[f]).file_id == id;
                lemma_ids_contain(ids, id);
                assert(owns_missing(files, starts, ids, f, x));
            }
        }
        if exists|f: int| #[trigger] owns_missing(files, starts, ids, f, x) {
            let f = choose|f: int| #[trigger] owns_missing(files, starts, ids, f, x);
            lemma_ids_contain(ids, files[f].file_id);
            if first.contains(files[f].file_id) {
                assert(owns_missing(files, starts, first, f, x));
            }
        }
    } else {
        assert(!all.contains(x));
    }
}

proof fn lemma_contains_either(a: Seq<int>, b: Seq<int>, x: int)
    ensures
        (a + b).contains(x) <==> a.contains(x) || b.contains(x),
{
    if (a + b).contains(x) {
        let k = choose|k: int| 0 <= k < (a + b).len() && (a + b)[k] == x;
        if k < a.len() {
            assert(a[k] == x);
        } else {
            assert(b[k - a.len()] == x);
        }
    }
    if a.contains(x) {
        let k = choose|k: int| 0 <= k < a.len() && a[k] == x;
        assert((a + b)[k] == x);
    }
    if b.contains(x) {
        let k = choose|k: int| 0 <= k < b.len() && b[k] == x;
        assert((a + b)[a.len() + k] == x);
    }
}

proof fn lemma_range_is(
    files: Seq<FileView>,
    block_size: int,
    starts: Seq<int>,
    id: Seq<u8>,
)
    requires
        block_size > 0,
        restoration::ids_differ(files),
        limits::are_counted(creator::lengths_of(files), block_size, starts),
    ensures
        forall|f: int|
            0 <= f < files.len() && (#[trigger] files[f]).file_id == id ==> repair_plan::range_of(
                files,
                block_size,
                id,
                files.len(),
            ) == Some((starts[f], starts[f + 1] - starts[f])),
        repair_plan::range_of(files, block_size, id, files.len()) is Some ==> exists|f: int|
            0 <= f < files.len() && (#[trigger] files[f]).file_id == id,
        repair_plan::range_of(files, block_size, id, files.len()) matches Some((start, count))
            ==> count >= 0,
{
    assert forall|f: int|
        0 <= f < files.len() && (#[trigger] files[f]).file_id
            == id implies repair_plan::range_of(files, block_size, id, files.len()) == Some(
        (starts[f], starts[f + 1] - starts[f]),
    ) by {
        limits::law_files_have_ranges(files, block_size, starts, f);
    }
    lemma_range_has_owner(files, block_size, id, files.len());
    if repair_plan::range_of(files, block_size, id, files.len()) is Some {
        let f = choose|f: int| 0 <= f < files.len() && (#[trigger] files[f]).file_id == id;
        let lengths = creator::lengths_of(files);
        assert(limits::is_count(starts[f + 1] - starts[f], lengths[f] as int, block_size));
    }
}

proof fn lemma_range_has_owner(files: Seq<FileView>, block_size: int, id: Seq<u8>, n: nat)
    requires
        n <= files.len(),
    ensures
        repair_plan::range_of(files, block_size, id, n) is Some ==> exists|f: int|
            0 <= f < n && (#[trigger] files[f]).file_id == id,
    decreases n,
{
    if n > 0 {
        lemma_range_has_owner(files, block_size, id, (n - 1) as nat);
        if files[n - 1].file_id != id && repair_plan::range_of(files, block_size, id, n) is Some {
            let f = choose|f: int| 0 <= f < n - 1 && (#[trigger] files[f]).file_id == id;
            assert(0 <= f < n && files[f].file_id == id);
        }
    }
}

/// Block `j` of a file with this ID is to be restored because the file is damaged: the block is known to
/// be damaged, or nothing is known of the blocks of the file.
pub open spec fn is_damaged_block(
    damages: Map<Seq<u8>, BlockDamage>,
    id: Seq<u8>,
    count: int,
    j: int,
) -> bool {
    if damages.dom().contains(id) {
        exists|k: int|
            0 <= k < damages[id].damaged_block_indices@.len()
                && #[trigger] damages[id].damaged_block_indices@[k] == j
    } else {
        0 <= j < count
    }
}

proof fn lemma_damaged_contains(
    files: Seq<FileView>,
    block_size: int,
    starts: Seq<int>,
    ids: Seq<Seq<u8>>,
    damages: Map<Seq<u8>, BlockDamage>,
    x: int,
)
    requires
        block_size > 0,
        restoration::ids_differ(files),
        limits::are_counted(creator::lengths_of(files), block_size, starts),
    ensures
        repair_plan::damaged_blocks(files, block_size, ids, damages).contains(x) <==> exists|
            f: int,
        | #[trigger]
            owns_damaged(files, starts, ids, damages, f, x),
    decreases ids.len(),
{
    let all = repair_plan::damaged_blocks(files, block_size, ids, damages);
    if ids.len() > 0 {
        let first = ids.drop_last();
        let id = ids.last();
        let before = repair_plan::damaged_blocks(files, block_size, first, damages);
        lemma_damaged_contains(files, block_size, starts, first, damages, x);
        lemma_range_is(files, block_size, starts, id);
        let range = repair_plan::range_of(files, block_size, id, files.len());
        if range is Some {
            let (start, count) = range->Some_0;
            let part = repair_plan::damaged_blocks_of((start, count), damages, id);
            lemma_contains_either(before, part, x);
            lemma_part_contains((start, count), damages, id, x);
        }
        if all.contains(x) {
            if before.contains(x) {
                let f = choose|f: int| #[trigger] owns_damaged(files, starts, first, damages, f, x);
                lemma_ids_contain(ids, files[f].file_id);
                assert(owns_damaged(files, starts, ids, damages, f, x));
            } else {
                let f = choose|f: int| 0 <= f < files.len() && (#[trigger] files[f]).file_id == id;
                lemma_ids_contain(ids, id);
                assert(owns_damaged(files, starts, ids, damages, f, x));
            }
        }
        if exists|f: int| #[trigger] owns_damaged(files, starts, ids, damages, f, x) {
            let f = choose|f: int| #[trigger] owns_damaged(files, starts, ids, damages, f, x);
            lemma_ids_contain(ids, files[f].file_id);
            if first.contains(files[f].file_id) {
                assert(owns_damaged(files, starts, first, damages, f, x));
            }
        }
    } else {
        assert(!all.contains(x));
    }
}

proof fn lemma_part_contains(
    range: (int, int),
    damages: Map<Seq<u8>, BlockDamage>,
    id: Seq<u8>,
    x: int,
)
    requires
        range.1 >= 0,
    ensures
        repair_plan::damaged_blocks_of(range, damages, id).contains(x) <==> is_damaged_block(
            damages,
            id,
            range.1,
            x - range.0,
        ),
{
    let part = repair_plan::damaged_blocks_of(range, damages, id);
    if damages.dom().contains(id) {
        let list = damages[id].damaged_block_indices@;
        if part.contains(x) {
            let k = choose|k: int| 0 <= k < part.len() && part[k] == x;
            assert(list[k] == x - range.0);
        }
        if is_damaged_block(damages, id, range.1, x - range.0) {
            let k = choose|k: int| 0 <= k < list.len() && #[trigger] list[k] == x - range.0;
            assert(part[k] == x);
        }
    } else {
        if 0 <= x - range.0 < range.1 {
            assert(part[x - range.0] == x);
        }
        if part.contains(x) {
            let k = choose|k: int| 0 <= k < part.len() && part[k] == x;
            assert(x == range.0 + k);
        }
    }
}

/// Block `x` has to be restored for the sake of file `f`: the file is missing, or it is damaged there.
pub open spec fn is_lost_in(
    par2: Par2File,
    result: VerificationResult,
    starts: Seq<int>,
    f: int,
    x: int,
) -> bool {
    let id = par2.files_in_order@[f].file_id@;
    &&& 0 <= f < par2.files_in_order@.len()
    &&& (parser::id_views(result.missing_files@).contains(id) && starts[f] <= x < starts[f + 1])
        || (parser::id_views(result.damaged_files@).contains(id) && is_damaged_block(
        result.block_damages@,
        id,
        starts[f + 1] - starts[f],
        x - starts[f],
    ))
}

/// A block is restored just if it is one of a missing file, or a damaged one of a damaged file. The
/// blocks of the files are numbered one file after the other.
pub proof fn law_damaged_blocks_are_restored(
    par2: Par2File,
    result: VerificationResult,
    starts: Seq<int>,
    x: int,
)
    requires
        par2.block_size > 0,
        restoration::ids_differ(parser::file_views(par2.files_in_order@)),
        limits::are_counted(
            creator::lengths_of(parser::file_views(par2.files_in_order@)),
            par2.block_size as int,
            starts,
        ),
    ensures
        repair_plan::blocks_to_restore(par2, result).contains(x) <==> exists|f: int| #[trigger]
            is_lost_in(par2, result, starts, f, x),
{
    let files = parser::file_views(par2.files_in_order@);
    let size = par2.block_size as int;
    let missing = parser::id_views(result.missing_files@);
    let damaged = parser::id_views(result.damaged_files@);
    let damages = result.block_damages@;
    lemma_missing_contains(files, size, starts, missing, x);
    lemma_damaged_contains(files, size, starts, damaged, damages, x);
    lemma_contains_either(
        repair_plan::missing_blocks(files, size, missing),
        repair_plan::damaged_blocks(files, size, damaged, damages),
        x,
    );
    if repair_plan::blocks_to_restore(par2, result).contains(x) {
        if repair_plan::missing_blocks(files, size, missing).contains(x) {
            let f = choose|f: int| #[trigger] owns_missing(files, starts, missing, f, x);
            assert(is_lost_in(par2, result, starts, f, x));
        } else {
            let f = choose|f: int| #[trigger] owns_damaged(files, starts, damaged, damages, f, x);
            assert(is_lost_in(par2, result, starts, f, x));
        }
    }
    if exists|f: int| #[trigger] is_lost_in(par2, result, starts, f, x) {
        let f = choose|f: int| #[trigger] is_lost_in(par2, result, starts, f, x);
        assert(files[f].file_id == par2.files_in_order@[f].file_id@);
        assert(owns_missing(files, starts, missing, f, x) || owns_damaged(
            files,
            starts,
            damaged,
            damages,
            f,
            x,
        ));
    }
}

/// A plan uses one recovery block for each block that is restored, each once, with ascending exponents.
/// No recovery block that it leaves out has a smaller exponent than one that it uses.
pub proof fn law_plans_use_the_least_exponents(
    plan: RepairPlan,
    par2: Par2File,
    result: VerificationResult,
    i: int,
    v: int,
)
    requires
        repair_plan::is_plan(plan, par2, result),
        0 <= i < plan.recovery@.len(),
        0 <= v < par2.recovery_blocks@.len(),
    ensures
        plan.recovery@.len() == repair_plan::blocks_to_restore(par2, result).len(),
        plan.recovery@[i] < par2.recovery_blocks@.len(),
        forall|j: int|
            0 <= j < i ==> plan.recovery@[j] != plan.recovery@[i]
                && par2.recovery_blocks@[#[trigger] plan.recovery@[j] as int].exponent
                <= par2.recovery_blocks@[plan.recovery@[i] as int].exponent,
        (forall|j: int| 0 <= j < plan.recovery@.len() ==> #[trigger] plan.recovery@[j] != v)
            ==> par2.recovery_blocks@[plan.recovery@[i] as int].exponent
            <= par2.recovery_blocks@[v].exponent,
{
    let blocks = parser::recovery_views(par2.recovery_blocks@);
    let keys = repair_plan::exponent_keys(blocks);
    let m = plan.damaged@.len();
    assert(solver::indices(plan.damaged@).len() == m);
    let order = choose|order: Seq<int>|
        #[trigger] ordering::is_stable_order(keys, order) && m <= order.len() && solver::indices(
            plan.recovery@,
        ) == order.take(m as int);
    let used = solver::indices(plan.recovery@);
    assert(used.len() == plan.recovery@.len());
    assert forall|j: int| 0 <= j < m implies #[trigger] order[j] == plan.recovery@[j] by {
        assert(used[j] == order.take(m as int)[j]);
    }
    assert forall|k: int| 0 <= k < blocks.len() implies (#[trigger] keys[k]).0
        == par2.recovery_blocks@[k].exponent by {
        assert(blocks[k] == par2.recovery_blocks@[k]@);
    }
    assert(0 <= order[i] < blocks.len());
    assert forall|j: int| 0 <= j < i implies plan.recovery@[j] != plan.recovery@[i]
        && par2.recovery_blocks@[#[trigger] plan.recovery@[j] as int].exponent
        <= par2.recovery_blocks@[plan.recovery@[i] as int].exponent by {
        assert(order[j] != order[i]);
        assert(ordering::goes_before(keys, order[j], order[i]));
        assert(keys[order[j]].0 <= keys[order[i]].0);
    }
    if forall|j: int| 0 <= j < plan.recovery@.len() ==> #[trigger] plan.recovery@[j] != v {
        sums::lemma_permutation_onto(order, blocks.len(), v);
        let p = choose|p: int| 0 <= p < blocks.len() && #[trigger] order[p] == v;
        if p < m {
            assert(plan.recovery@[p] == v);
        }
        assert(ordering::goes_before(keys, order[i], order[p]));
        assert(keys[order[i]].0 <= keys[order[p]].0);
    }
}

} // verus!
