//! What verification finds can be repaired: the damaged blocks are data blocks, each listed once.

use vstd::prelude::*;

use crate::blocks;
use crate::creator;
use crate::loader::{Par2File, StoredFile};
use crate::parser;
use crate::parser::FileView;
use crate::repair_plan;
use crate::round_trip;
use crate::solver;
use crate::verify;
use crate::verify::{BlockDamage, Case, FileState, VerificationResult};

verus! {

/// Block `x` is one of the file with the ID.
spec fn is_of(files: Seq<FileView>, size: int, id: Seq<u8>, x: int) -> bool {
    match repair_plan::range_of(files, size, id, files.len()) {
        Some((start, count)) => start <= x < start + count,
        None => false,
    }
}

proof fn lemma_range_file(files: Seq<FileView>, size: int, id: Seq<u8>, n: nat) -> (f: int)
    requires
        n <= files.len(),
        repair_plan::range_of(files, size, id, n) is Some,
    ensures
        0 <= f < n,
        files[f].file_id == id,
        repair_plan::range_of(files, size, id, n) == Some(
            (
                creator::total_blocks(creator::lengths_of(files).take(f), size),
                blocks::block_count(files[f].length as int, size),
            ),
        ),
    decreases n,
{
    if files[n - 1].file_id == id {
        n - 1
    } else {
        lemma_range_file(files, size, id, (n - 1) as nat)
    }
}

proof fn lemma_total_after(lengths: Seq<u64>, size: int, f: int, g: int)
    requires
        size > 0,
        0 <= f < g <= lengths.len(),
    ensures
        creator::total_blocks(lengths.take(f), size) + blocks::block_count(lengths[f] as int, size)
            <= creator::total_blocks(lengths.take(g), size),
{
    let part = lengths.take(g);
    repair_plan::lemma_total_monotone(part, size, f + 1);
    assert(part.take(f + 1) =~= lengths.take(f + 1));
    assert(lengths.take(f + 1).drop_last() =~= lengths.take(f));
    assert(lengths.take(f + 1).last() == lengths[f]);
}

/// A block belongs to one file only, and is a data block of the set.
proof fn lemma_owner_unique(files: Seq<FileView>, size: int, a: Seq<u8>, b: Seq<u8>, x: int)
    requires
        size > 0,
        is_of(files, size, a, x),
        is_of(files, size, b, x),
    ensures
        a == b,
        0 <= x < creator::total_blocks(creator::lengths_of(files), size),
{
    let lengths = creator::lengths_of(files);
    let f = lemma_range_file(files, size, a, files.len());
    let g = lemma_range_file(files, size, b, files.len());
    repair_plan::lemma_total_monotone(lengths, size, f);
    lemma_total_after(lengths, size, f, lengths.len() as int);
    assert(lengths.take(lengths.len() as int) =~= lengths);
    if f < g {
        lemma_total_after(lengths, size, f, g);
    } else if g < f {
        lemma_total_after(lengths, size, g, f);
    }
}

/// No ID is listed twice.
spec fn ids_once(ids: Seq<Seq<u8>>) -> bool {
    forall|i: int, j: int| 0 <= i < j < ids.len() ==> #[trigger] ids[i] != #[trigger] ids[j]
}

/// Block `x` is one of one of the files with the IDs.
spec fn is_of_one(files: Seq<FileView>, size: int, ids: Seq<Seq<u8>>, x: int) -> bool {
    exists|i: int| 0 <= i < ids.len() && is_of(files, size, #[trigger] ids[i], x)
}

/// Every number is a block of one of the files with the IDs.
spec fn belong_to(files: Seq<FileView>, size: int, ids: Seq<Seq<u8>>, numbers: Seq<int>) -> bool {
    forall|k: int|
        0 <= k < numbers.len() ==> is_of_one(files, size, ids, #[trigger] numbers[k])
}

/// A range has no negative length.
proof fn lemma_range_count(files: Seq<FileView>, size: int, id: Seq<u8>)
    requires
        size > 0,
        repair_plan::range_of(files, size, id, files.len()) is Some,
    ensures
        repair_plan::range_of(files, size, id, files.len())->Some_0.1 >= 0,
{
    let f = lemma_range_file(files, size, id, files.len());
    blocks::law_block_count(files[f].length as int, size, 0);
}

/// The blocks of one more file, each once, may follow.
proof fn lemma_append(
    files: Seq<FileView>,
    size: int,
    ids: Seq<Seq<u8>>,
    id: Seq<u8>,
    before: Seq<int>,
    part: Seq<int>,
)
    requires
        size > 0,
        ids_once(ids.push(id)),
        belong_to(files, size, ids, before),
        round_trip::no_repeats(before),
        round_trip::no_repeats(part),
        forall|k: int| 0 <= k < part.len() ==> is_of(files, size, id, #[trigger] part[k]),
    ensures
        belong_to(files, size, ids.push(id), before + part),
        round_trip::no_repeats(before + part),
{
    let all = before + part;
    let more = ids.push(id);
    assert forall|k: int| 0 <= k < all.len() implies is_of_one(
        files,
        size,
        more,
        #[trigger] all[k],
    ) by {
        if k < before.len() {
            assert(is_of_one(files, size, ids, before[k]));
            let i = choose|i: int|
                0 <= i < ids.len() && is_of(files, size, #[trigger] ids[i], before[k]);
            assert(more[i] == ids[i]);
            assert(is_of(files, size, more[i], all[k]));
        } else {
            assert(all[k] == part[k - before.len()]);
            assert(more[ids.len() as int] == id);
            assert(is_of(files, size, more[ids.len() as int], all[k]));
        }
    }
    assert forall|j: int, k: int| 0 <= j < k < all.len() implies #[trigger] all[j]
        != #[trigger] all[k] by {
        if k < before.len() {
            assert(before[j] != before[k]);
        } else if j >= before.len() {
            assert(part[j - before.len()] != part[k - before.len()]);
        } else {
            assert(is_of_one(files, size, ids, before[j]));
            let i = choose|i: int|
                0 <= i < ids.len() && is_of(files, size, #[trigger] ids[i], before[j]);
            assert(is_of(files, size, id, part[k - before.len()]));
            if all[j] == all[k] {
                lemma_owner_unique(files, size, ids[i], id, all[j]);
                assert(more[i] != more[ids.len() as int]);
            }
        }
    }
}

proof fn lemma_missing(files: Seq<FileView>, size: int, ids: Seq<Seq<u8>>)
    requires
        size > 0,
        ids_once(ids),
    ensures
        belong_to(files, size, ids, repair_plan::missing_blocks(files, size, ids)),
        round_trip::no_repeats(repair_plan::missing_blocks(files, size, ids)),
    decreases ids.len(),
{
    if ids.len() > 0 {
        let first = ids.drop_last();
        let id = ids.last();
        assert(first.push(id) =~= ids);
        assert forall|i: int, j: int| 0 <= i < j < first.len() implies #[trigger] first[i]
            != #[trigger] first[j] by {
            assert(ids[i] != ids[j]);
        }
        lemma_missing(files, size, first);
        let before = repair_plan::missing_blocks(files, size, first);
        let part = match repair_plan::range_of(files, size, id, files.len()) {
            Some((start, count)) => repair_plan::counted(start, count),
            None => seq![],
        };
        assert(repair_plan::missing_blocks(files, size, ids) =~= before + part);
        if repair_plan::range_of(files, size, id, files.len()) is Some {
            lemma_range_count(files, size, id);
        }
        lemma_append(files, size, first, id, before, part);
    }
}

/// The damaged blocks of each damaged file are blocks of it, each once.
spec fn damages_fit(
    files: Seq<FileView>,
    size: int,
    ids: Seq<Seq<u8>>,
    damages: Map<Seq<u8>, BlockDamage>,
) -> bool {
    forall|i: int|
        0 <= i < ids.len() && damages.dom().contains(#[trigger] ids[i])
            && repair_plan::range_of(files, size, ids[i], files.len()) is Some ==> {
            let list = solver::indices(damages[ids[i]].damaged_block_indices@);
            let count = repair_plan::range_of(files, size, ids[i], files.len())->Some_0.1;
            &&& round_trip::no_repeats(list)
            &&& forall|k: int| 0 <= k < list.len() ==> 0 <= #[trigger] list[k] < count
        }
}

proof fn lemma_damaged(
    files: Seq<FileView>,
    size: int,
    ids: Seq<Seq<u8>>,
    damages: Map<Seq<u8>, BlockDamage>,
    start_ids: Seq<Seq<u8>>,
    start: Seq<int>,
)
    requires
        size > 0,
        ids_once(start_ids + ids),
        damages_fit(files, size, ids, damages),
        belong_to(files, size, start_ids, start),
        round_trip::no_repeats(start),
    ensures
        belong_to(
            files,
            size,
            start_ids + ids,
            start + repair_plan::damaged_blocks(files, size, ids, damages),
        ),
        round_trip::no_repeats(start + repair_plan::damaged_blocks(files, size, ids, damages)),
    decreases ids.len(),
{
    let all = repair_plan::damaged_blocks(files, size, ids, damages);
    if ids.len() == 0 {
        assert(start + all =~= start);
        assert(start_ids + ids =~= start_ids);
    } else {
        let first = ids.drop_last();
        let id = ids.last();
        assert((start_ids + first).push(id) =~= start_ids + ids);
        assert forall|i: int, j: int| 0 <= i < j < (start_ids + first).len() implies
            #[trigger] (start_ids + first)[i] != #[trigger] (start_ids + first)[j] by {
            assert((start_ids + ids)[i] != (start_ids + ids)[j]);
        }
        assert forall|i: int|
            0 <= i < first.len() && damages.dom().contains(#[trigger] first[i])
                && repair_plan::range_of(files, size, first[i], files.len()) is Some implies {
            let list = solver::indices(damages[first[i]].damaged_block_indices@);
            let count = repair_plan::range_of(files, size, first[i], files.len())->Some_0.1;
            &&& round_trip::no_repeats(list)
            &&& forall|k: int| 0 <= k < list.len() ==> 0 <= #[trigger] list[k] < count
        } by {
            assert(first[i] == ids[i]);
        }
        lemma_damaged(files, size, first, damages, start_ids, start);
        let before = repair_plan::damaged_blocks(files, size, first, damages);
        let part = match repair_plan::range_of(files, size, id, files.len()) {
            Some(range) => repair_plan::damaged_blocks_of(range, damages, id),
            None => seq![],
        };
        assert(all =~= before + part);
        assert(start + all =~= (start + before) + part);
        assert(round_trip::no_repeats(part) && forall|k: int|
            0 <= k < part.len() ==> is_of(files, size, id, #[trigger] part[k])) by {
            if let Some(range) = repair_plan::range_of(files, size, id, files.len()) {
                lemma_range_count(files, size, id);
                if damages.dom().contains(id) {
                    let list = solver::indices(damages[id].damaged_block_indices@);
                    assert(ids[ids.len() - 1] == id);
                    assert forall|j: int, k: int| 0 <= j < k < part.len() implies
                        #[trigger] part[j] != #[trigger] part[k] by {
                        assert(list[j] != list[k]);
                    }
                    assert forall|k: int| 0 <= k < part.len() implies is_of(
                        files,
                        size,
                        id,
                        #[trigger] part[k],
                    ) by {
                        assert(0 <= list[k] < range.1);
                    }
                }
            }
        }
        lemma_append(files, size, start_ids + first, id, start + before, part);
    }
}

/// The ID is that of one of the first `n` files, which was found in the state.
spec fn is_in_state(c: Case, n: nat, state: FileState, id: Seq<u8>) -> bool {
    exists|i: int| 0 <= i < n && c.state(i) == state && #[trigger] c.ids[i] == id
}

proof fn lemma_damaged_ids(c: Case, n: nat)
    requires
        n <= c.ids.len(),
        ids_once(c.ids),
    ensures
        ids_once(c.damaged(n)),
        forall|k: int|
            0 <= k < c.damaged(n).len() ==> is_in_state(
                c,
                n,
                FileState::Damaged,
                #[trigger] c.damaged(n)[k],
            ),
    decreases n,
{
    if n > 0 {
        lemma_damaged_ids(c, (n - 1) as nat);
        let before = c.damaged((n - 1) as nat);
        let list = c.damaged(n);
        assert forall|k: int| 0 <= k < list.len() implies is_in_state(
            c,
            n,
            FileState::Damaged,
            #[trigger] list[k],
        ) by {
            if k < before.len() {
                assert(is_in_state(c, (n - 1) as nat, FileState::Damaged, before[k]));
                let i = choose|i: int|
                    0 <= i < n - 1 && c.state(i) == FileState::Damaged && #[trigger] c.ids[i]
                        == before[k];
                assert(c.ids[i] == list[k]);
            } else {
                assert(c.ids[n - 1] == list[k]);
            }
        }
        assert forall|j: int, k: int| 0 <= j < k < list.len() implies #[trigger] list[j]
            != #[trigger] list[k] by {
            if k < before.len() {
                assert(before[j] != before[k]);
            } else {
                assert(is_in_state(c, (n - 1) as nat, FileState::Damaged, before[j]));
                let i = choose|i: int|
                    0 <= i < n - 1 && c.state(i) == FileState::Damaged && #[trigger] c.ids[i]
                        == before[j];
                assert(c.ids[i] != c.ids[n - 1]);
            }
        }
    }
}

proof fn lemma_missing_ids(c: Case, n: nat)
    requires
        n <= c.ids.len(),
        ids_once(c.ids),
    ensures
        ids_once(c.missing(n)),
        forall|k: int|
            0 <= k < c.missing(n).len() ==> is_in_state(
                c,
                n,
                FileState::Absent,
                #[trigger] c.missing(n)[k],
            ),
    decreases n,
{
    if n > 0 {
        lemma_missing_ids(c, (n - 1) as nat);
        let before = c.missing((n - 1) as nat);
        let list = c.missing(n);
        assert forall|k: int| 0 <= k < list.len() implies is_in_state(
            c,
            n,
            FileState::Absent,
            #[trigger] list[k],
        ) by {
            if k < before.len() {
                assert(is_in_state(c, (n - 1) as nat, FileState::Absent, before[k]));
                let i = choose|i: int|
                    0 <= i < n - 1 && c.state(i) == FileState::Absent && #[trigger] c.ids[i]
                        == before[k];
                assert(c.ids[i] == list[k]);
            } else {
                assert(c.ids[n - 1] == list[k]);
            }
        }
        assert forall|j: int, k: int| 0 <= j < k < list.len() implies #[trigger] list[j]
            != #[trigger] list[k] by {
            if k < before.len() {
                assert(before[j] != before[k]);
            } else {
                assert(is_in_state(c, (n - 1) as nat, FileState::Absent, before[j]));
                let i = choose|i: int|
                    0 <= i < n - 1 && c.state(i) == FileState::Absent && #[trigger] c.ids[i]
                        == before[j];
                assert(c.ids[i] != c.ids[n - 1]);
            }
        }
    }
}

/// No file has more checksums than blocks.
pub open spec fn checksums_fit(par2: Par2File) -> bool {
    let files = parser::file_views(par2.files_in_order@);
    forall|id: Seq<u8>| #[trigger]
        par2.slice_checksums@.dom().contains(id) ==> match repair_plan::range_of(
            files,
            par2.block_size as int,
            id,
            files.len(),
        ) {
            Some((start, count)) => par2.slice_checksums@[id]@.len() <= count,
            None => true,
        }
}

proof fn lemma_damages_fit(
    par2: Par2File,
    result: VerificationResult,
    c: Case,
    files: Seq<FileView>,
    size: int,
    ids: Seq<Seq<u8>>,
)
    requires
        files == parser::file_views(par2.files_in_order@),
        size == par2.block_size,
        c == verify::case_of(par2, c.named, c.extra),
        ids_once(c.ids),
        verify::is_result(result, c),
        checksums_fit(par2),
        ids == c.damaged(c.ids.len()),
    ensures
        damages_fit(files, size, ids, result.block_damages@),
{
    let damages = result.block_damages@;
    let n = c.ids.len();
    lemma_damaged_ids(c, n);
    assert forall|k: int|
        0 <= k < ids.len() && damages.dom().contains(#[trigger] ids[k]) && repair_plan::range_of(
            files,
            size,
            ids[k],
            files.len(),
        ) is Some implies {
        let list = solver::indices(damages[ids[k]].damaged_block_indices@);
        let count = repair_plan::range_of(files, size, ids[k], files.len())->Some_0.1;
        &&& round_trip::no_repeats(list)
        &&& forall|j: int| 0 <= j < list.len() ==> 0 <= #[trigger] list[j] < count
    } by {
        assert(is_in_state(c, n, FileState::Damaged, ids[k]));
        let i = choose|i: int|
            0 <= i < n && c.state(i) == FileState::Damaged && #[trigger] c.ids[i] == ids[k];
        assert(damages.dom().contains(c.ids[i]) <==> c.has_damage(i));
        let list = solver::indices(damages[ids[k]].damaged_block_indices@);
        assert(list == c.damage(i));
        let sums = c.sums(i)->Some_0;
        assert(par2.slice_checksums@.dom().contains(ids[k]));
        assert(sums.len() == par2.slice_checksums@[ids[k]]@.len());
        verify::lemma_damaged_ascend(c.named[c.ids[i]].data@, sums, c.block_size, sums.len());
        assert forall|a: int, b: int| 0 <= a < b < list.len() implies #[trigger] list[a]
            != #[trigger] list[b] by {}
    }
}

/// What verification finds can be repaired: the blocks that have to be restored are data blocks of the
/// set, and none is listed twice, as long as no file has more checksums than blocks.
pub proof fn law_found_damage_can_be_repaired(
    par2: Par2File,
    result: VerificationResult,
    named: Map<Seq<u8>, StoredFile>,
    extra: Seq<StoredFile>,
)
    requires
        par2.files.wf(),
        par2.block_size > 0,
        verify::is_result(result, verify::case_of(par2, named, extra)),
        checksums_fit(par2),
    ensures
        round_trip::no_repeats(repair_plan::blocks_to_restore(par2, result)),
        forall|k: int|
            0 <= k < repair_plan::blocks_to_restore(par2, result).len() ==> 0
                <= #[trigger] repair_plan::blocks_to_restore(par2, result)[k]
                < repair_plan::data_block_count(par2),
        repair_plan::are_numbered(par2, result),
{
    let c = verify::case_of(par2, named, extra);
    let files = parser::file_views(par2.files_in_order@);
    let size = par2.block_size as int;
    let n = c.ids.len();
    let first = c.missing(n);
    let second = c.damaged(n);
    verify::lemma_distinct_ids(par2, c);
    lemma_missing_ids(c, n);
    lemma_damaged_ids(c, n);
    assert(ids_once(first + second)) by {
        let all = first + second;
        assert forall|i: int, j: int| 0 <= i < j < all.len() implies #[trigger] all[i]
            != #[trigger] all[j] by {
            if j < first.len() {
                assert(first[i] != first[j]);
            } else if i >= first.len() {
                assert(second[i - first.len()] != second[j - first.len()]);
            } else {
                assert(is_in_state(c, n, FileState::Absent, first[i]));
                assert(is_in_state(c, n, FileState::Damaged, second[j - first.len()]));
                let a = choose|a: int|
                    0 <= a < n && c.state(a) == FileState::Absent && #[trigger] c.ids[a]
                        == first[i];
                let b = choose|b: int|
                    0 <= b < n && c.state(b) == FileState::Damaged && #[trigger] c.ids[b]
                        == second[j - first.len()];
                if a < b {
                    assert(c.ids[a] != c.ids[b]);
                } else {
                    assert(c.ids[b] != c.ids[a]);
                }
            }
        }
    }
    lemma_missing(files, size, first);
    lemma_damages_fit(par2, result, c, files, size, second);
    let numbers = repair_plan::blocks_to_restore(par2, result);
    lemma_damaged(
        files,
        size,
        second,
        result.block_damages@,
        first,
        repair_plan::missing_blocks(files, size, first),
    );
    assert forall|k: int| 0 <= k < numbers.len() implies 0 <= #[trigger] numbers[k]
        < repair_plan::data_block_count(par2) by {
        assert(is_of_one(files, size, first + second, numbers[k]));
        let i = choose|i: int|
            0 <= i < (first + second).len() && is_of(
                files,
                size,
                #[trigger] (first + second)[i],
                numbers[k],
            );
        lemma_owner_unique(
            files,
            size,
            (first + second)[i],
            (first + second)[i],
            numbers[k],
        );
    }
}

} // verus!
