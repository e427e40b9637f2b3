//! Why repair works: damaged and missing files come back as they were.

use vstd::prelude::*;

use crate::blocks;
use crate::creator;
use crate::error::Result;
use crate::galois::bulk;
use crate::galois::sums;
use crate::loader::{Par2File, StoredFile};
use crate::parser;
use crate::parser::FileView;
use crate::reconstruction;
use crate::reed_solomon;
use crate::repair;
use crate::repair::{Repair, RepairedFile, Source};
use crate::repair_plan;
use crate::repair_plan::RepairPlan;
use crate::solver;
use crate::verify::VerificationResult;

verus! {

/// No block is listed twice.
pub open spec fn distinct(damaged: Seq<usize>) -> bool {
    forall|i: int, j: int|
        0 <= i < j < damaged.len() ==> #[trigger] damaged[i] != #[trigger] damaged[j]
}

pub proof fn lemma_good_blocks(damaged: Seq<usize>, n: nat)
    requires
        n <= usize::MAX,
    ensures
        forall|i: int|
            0 <= i < good(damaged, n).len() ==> #[trigger] good(damaged, n)[i] < n
                && !damaged.contains(good(damaged, n)[i]),
        forall|i: int, j: int|
            0 <= i < j < good(damaged, n).len() ==> #[trigger] good(damaged, n)[i]
                < #[trigger] good(damaged, n)[j],
        forall|b: int|
            0 <= b < n && !damaged.contains(b as usize) ==> #[trigger] good(damaged, n).contains(
                b as usize,
            ),
    decreases n,
{
    if n > 0 {
        let before = good(damaged, (n - 1) as nat);
        let list = good(damaged, n);
        lemma_good_blocks(damaged, (n - 1) as nat);
        assert forall|i: int| 0 <= i < list.len() implies #[trigger] list[i] < n
            && !damaged.contains(list[i]) by {
            if i < before.len() {
                assert(list[i] == before[i]);
            }
        }
        assert forall|i: int, j: int| 0 <= i < j < list.len() implies #[trigger] list[i]
            < #[trigger] list[j] by {
            assert(list[i] == before[i]);
            if j < before.len() {
                assert(list[j] == before[j]);
            }
        }
        assert forall|b: int| 0 <= b < n && !damaged.contains(b as usize) implies
            #[trigger] list.contains(b as usize) by {
            if b < n - 1 {
                assert(before.contains(b as usize));
                let k = choose|k: int| 0 <= k < before.len() && before[k] == b as usize;
                assert(list[k] == b as usize);
            } else {
                assert(list[before.len() as int] == b as usize);
            }
        }
    }
}

/// The blocks that are not damaged.
pub open spec fn good(damaged: Seq<usize>, n: nat) -> Seq<usize> {
    repair::good_blocks(damaged, n)
}

/// Damaged blocks and the others are all data blocks, each exactly once.
pub proof fn law_damaged_and_good(damaged: Seq<usize>, n: nat)
    requires
        n <= usize::MAX,
        distinct(damaged),
        reed_solomon::are_data_indices(damaged, n),
    ensures
        reconstruction::is_partition(damaged, repair::good_blocks(damaged, n), n),
{
    let list = good(damaged, n);
    lemma_good_blocks(damaged, n);
    let a = solver::indices(damaged);
    let b = solver::indices(list);
    let at = a + b;
    assert forall|i: int| 0 <= i < at.len() implies 0 <= #[trigger] at[i] < n by {
        if i < a.len() {
            assert(damaged[i] < n);
        } else {
            assert(list[i - a.len()] < n);
        }
    }
    assert forall|i: int, j: int| 0 <= i < j < at.len() implies #[trigger] at[i]
        != #[trigger] at[j] by {
        if j < a.len() {
            assert(damaged[i] != damaged[j]);
        } else if i >= a.len() {
            assert(list[i - a.len()] < list[j - a.len()]);
        } else {
            assert(!damaged.contains(list[j - a.len()]));
            assert(damaged[i] != list[j - a.len()]);
        }
    }
    assert forall|v: int| 0 <= v < n implies #[trigger] at.contains(v) by {
        if damaged.contains(v as usize) {
            let k = choose|k: int| 0 <= k < damaged.len() && damaged[k] == v as usize;
            assert(at[k] == v);
        } else {
            assert(list.contains(v as usize));
            let k = choose|k: int| 0 <= k < list.len() && list[k] == v as usize;
            assert(at[a.len() + k] == v);
        }
    }
    sums::lemma_onto_permutation(at, n);
}

/// What was stored when the files were as `data` says: the recovery blocks are those of the data, and
/// the blocks that are not damaged are unchanged.
pub open spec fn is_faithful(
    repair: Repair,
    par2: Par2File,
    inputs: Map<Seq<u8>, Vec<u8>>,
    stores: Seq<StoredFile>,
    data: Seq<Seq<u8>>,
) -> bool {
    &&& forall|r: int|
        0 <= r < repair.recovery@.len() ==> #[trigger] repair.recovery_sources(stores)[r]
            == Source::Bytes(
            creator::recovery_data(
                data,
                repair.block_size as nat,
                repair.recovery@[r].exponent as nat,
            ),
        )
    &&& forall|c: int|
        0 <= c < repair.good@.len() ==> #[trigger] repair.data_sources(par2, inputs)[c]
            == Source::Bytes(data[repair.good@[c] as int])
}

proof fn lemma_faithful_reads(sources: Seq<Source>, n: nat)
    requires
        n <= sources.len(),
        forall|i: int| 0 <= i < n ==> #[trigger] sources[i] is Bytes,
    ensures
        repair::first_failure(sources, n) is None,
    decreases n,
{
    if n > 0 {
        lemma_faithful_reads(sources, (n - 1) as nat);
        assert(sources[n - 1] is Bytes);
    }
}

/// A damaged block is restored as it was: if the recovery blocks are those of the data, and the blocks
/// that are not damaged are unchanged, then repair can read what it needs, and the restored blocks
/// are the data blocks.
pub proof fn law_blocks_are_restored(
    repair: Repair,
    par2: Par2File,
    plan: RepairPlan,
    inputs: Map<Seq<u8>, Vec<u8>>,
    stores: Seq<StoredFile>,
    data: Seq<Seq<u8>>,
)
    requires
        repair.is_for(par2, plan),
        par2.block_size % 4 == 0,
        data.len() == plan.total_blocks,
        plan.recovery@.len() == plan.damaged@.len(),
        distinct(plan.damaged@),
        reed_solomon::are_data_indices(plan.damaged@, plan.total_blocks as nat),
        forall|b: int| 0 <= b < data.len() ==> (#[trigger] data[b]).len() == par2.block_size,
        is_faithful(repair, par2, inputs, stores, data),
    ensures
        repair.failure(par2, inputs, stores) is None,
        repair.rows(par2, inputs, stores) == Seq::new(
            plan.damaged@.len(),
            |r: int| data[plan.damaged@[r] as int],
        ),
{
    let size = repair.block_size as nat;
    let m = plan.damaged@.len();
    let symbols = size / 2;
    let constants = reed_solomon::par2_constants(data.len());
    let words = creator::words_of_blocks(data);
    let rs = repair.recovery_sources(stores);
    let ds = repair.data_sources(par2, inputs);
    let rw = creator::words_of_blocks(repair::source_bytes(rs));
    let dw = creator::words_of_blocks(repair::source_bytes(ds));
    let exponents = repair::exponents_of(parser::recovery_views(repair.recovery@));
    assert(parser::recovery_views(repair.recovery@).len() == repair.recovery@.len());
    assert(2 * symbols == size);
    law_damaged_and_good(plan.damaged@, data.len());
    lemma_faithful_reads(rs, rs.len());
    lemma_faithful_reads(ds, ds.len());
    assert forall|i: int| 0 <= i < words.len() implies (#[trigger] words[i]).len() == symbols by {
        assert(data[i].len() == size);
    }
    assert forall|r: int| 0 <= r < m implies #[trigger] rw[r] == reed_solomon::recovery_words(
        constants,
        words,
        exponents[r],
        symbols,
    ) by {
        assert(rs[r] == Source::Bytes(
            creator::recovery_data(data, size, repair.recovery@[r].exponent as nat),
        ));
        bulk::law_words_of_bytes(
            reed_solomon::recovery_words(constants, words, exponents[r], symbols),
        );
    }
    assert forall|c: int| 0 <= c < repair.good@.len() implies #[trigger] dw[c]
        == words[repair.good@[c] as int] by {
        assert(ds[c] == Source::Bytes(data[repair.good@[c] as int]));
        lemma_good_blocks(plan.damaged@, data.len());
        assert(good(plan.damaged@, data.len())[c] < data.len());
        assert(repair::source_bytes(ds)[c] == data[repair.good@[c] as int]);
    }
    let want = Seq::new(m, |r: int| data[plan.damaged@[r] as int]);
    let got = repair.rows(par2, inputs, stores);
    assert forall|r: int| 0 <= r < m implies #[trigger] got[r] == want[r] by {
        reconstruction::law_reconstruction(
            repair.transform,
            constants,
            words,
            plan.damaged@,
            repair.good@,
            exponents,
            rw,
            dw,
            symbols,
            r,
        );
        assert(plan.damaged@[r] < data.len());
        let block = data[plan.damaged@[r] as int];
        assert(words[plan.damaged@[r] as int] == bulk::words(block));
        assert(block.len() == size);
        bulk::law_bytes_of_words(block);
    }
    assert(got =~= want);
}

proof fn lemma_row_of(damaged: Seq<usize>, b: int, n: nat)
    requires
        n <= damaged.len(),
    ensures
        match repair::row_of(damaged, b, n) {
            Some(r) => 0 <= r < n && damaged[r] == b,
            None => forall|r: int| 0 <= r < n ==> #[trigger] damaged[r] != b,
        },
    decreases n,
{
    if n > 0 && damaged[n - 1] != b {
        lemma_row_of(damaged, b, (n - 1) as nat);
    }
}

/// A file whose damaged blocks are replaced by those that they were is as it was, if the rest of it
/// is.
pub proof fn law_file_is_restored(
    truth: Seq<u8>,
    seed: Seq<u8>,
    start: int,
    damaged: Seq<usize>,
    rows: Seq<Seq<u8>>,
    block_size: int,
)
    requires
        block_size > 0,
        seed.len() == truth.len(),
        rows.len() == damaged.len(),
        forall|r: int|
            0 <= r < damaged.len() && start <= #[trigger] damaged[r] < start + blocks::block_count(
                truth.len() as int,
                block_size,
            ) ==> rows[r] == blocks::block_at(truth, block_size as nat, damaged[r] - start),
        forall|q: int|
            0 <= q < truth.len() && repair::row_of(
                damaged,
                start + q / block_size,
                damaged.len(),
            ) is None ==> #[trigger] seed[q] == truth[q],
    ensures
        repair::repaired_file(
            seed,
            Some((start, blocks::block_count(truth.len() as int, block_size))),
            damaged,
            rows,
            block_size,
        ) == truth,
{
    let count = blocks::block_count(truth.len() as int, block_size);
    let out = repair::repaired_file(seed, Some((start, count)), damaged, rows, block_size);
    assert forall|q: int| 0 <= q < truth.len() implies out[q] == truth[q] by {
        let j = q / block_size;
        blocks::law_blocks_hold_file(truth, block_size as nat, q);
        lemma_row_of(damaged, start + j, damaged.len());
        match repair::row_of(damaged, start + j, damaged.len()) {
            Some(r) => {
                assert(rows[r] == blocks::block_at(truth, block_size as nat, j));
                assert(out[q] == rows[r][q % block_size]);
            },
            None => {
                assert(out[q] == seed[q]);
            },
        }
    }
    assert(out =~= truth);
}

/// No two files have the same ID.
pub open spec fn ids_differ(files: Seq<FileView>) -> bool {
    forall|f: int, g: int|
        0 <= f < g < files.len() ==> (#[trigger] files[f]).file_id != (#[trigger] files[g]).file_id
}

/// The files have the lengths of the contents.
pub open spec fn lengths_agree(files: Seq<FileView>, truth: Seq<Seq<u8>>) -> bool {
    &&& files.len() == truth.len()
    &&& forall|f: int| 0 <= f < files.len() ==> (#[trigger] files[f]).length == truth[f].len()
}

pub proof fn lemma_first_blocks_agree(
    files: Seq<FileView>,
    truth: Seq<Seq<u8>>,
    block_size: int,
    f: int,
)
    requires
        block_size > 0,
        lengths_agree(files, truth),
        0 <= f <= files.len(),
    ensures
        creator::total_blocks(creator::lengths_of(files).take(f), block_size)
            == blocks::first_block(truth, block_size as nat, f),
    decreases f,
{
    let lengths = creator::lengths_of(files);
    if f == 0 {
        assert(lengths.take(0) =~= seq![]);
        assert(truth.take(0) =~= seq![]);
    } else {
        lemma_first_blocks_agree(files, truth, block_size, f - 1);
        blocks::lemma_first_block(truth, block_size as nat, f - 1);
        assert(lengths.take(f).drop_last() =~= lengths.take(f - 1));
        assert(lengths.take(f).last() == files[f - 1].length);
    }
}

pub proof fn lemma_range(files: Seq<FileView>, block_size: int, f: int, n: nat)
    requires
        ids_differ(files),
        0 <= f < n <= files.len(),
    ensures
        repair_plan::range_of(files, block_size, files[f].file_id, n) == Some(
            (
                creator::total_blocks(creator::lengths_of(files).take(f), block_size),
                blocks::block_count(files[f].length as int, block_size),
            ),
        ),
    decreases n,
{
    if f < n - 1 {
        assert(files[f].file_id != files[n - 1].file_id);
        lemma_range(files, block_size, f, (n - 1) as nat);
    }
}

/// The owner of a data block is the file that it is numbered for.
pub proof fn lemma_owner(
    files: Seq<FileView>,
    truth: Seq<Seq<u8>>,
    block_size: int,
    f: int,
    j: int,
    n: nat,
)
    requires
        block_size > 0,
        ids_differ(files),
        lengths_agree(files, truth),
        0 <= f < n <= files.len(),
        0 <= j < blocks::block_count(files[f].length as int, block_size),
    ensures
        repair::block_owners(files, block_size, n).len() == blocks::first_block(
            truth,
            block_size as nat,
            n as int,
        ),
        repair::block_owners(files, block_size, n)[blocks::first_block(
            truth,
            block_size as nat,
            f,
        ) + j] == Some((f, j)),
    decreases n,
{
    let size = block_size as nat;
    let k = n - 1;
    lemma_owners_len(files, truth, block_size, n);
    lemma_owners_len(files, truth, block_size, k as nat);
    blocks::lemma_first_block(truth, size, k);
    if f < k {
        lemma_owner(files, truth, block_size, f, j, k as nat);
        blocks::lemma_first_block(truth, size, f);
        blocks::lemma_first_block_monotone(truth, size, f + 1, k);
    } else {
        assert(repair::is_last(files, f)) by {
            assert forall|g: int| f < g < files.len() implies (#[trigger] files[g]).file_id
                != files[f].file_id by {}
        }
    }
}

proof fn lemma_owners_len(files: Seq<FileView>, truth: Seq<Seq<u8>>, block_size: int, n: nat)
    requires
        block_size > 0,
        lengths_agree(files, truth),
        n <= files.len(),
    ensures
        repair::block_owners(files, block_size, n).len() == blocks::first_block(
            truth,
            block_size as nat,
            n as int,
        ),
    decreases n,
{
    if n == 0 {
        assert(truth.take(0) =~= seq![]);
    } else {
        let k = n - 1;
        lemma_owners_len(files, truth, block_size, k as nat);
        blocks::lemma_first_block(truth, block_size as nat, k);
        blocks::law_block_count(files[k].length as int, block_size, 0);
        assert(files[k].length == truth[k].len());
    }
}

/// All blocks of a missing file have to be restored.
pub proof fn lemma_missing_listed(
    files: Seq<FileView>,
    block_size: int,
    ids: Seq<Seq<u8>>,
    id: Seq<u8>,
    j: int,
)
    requires
        ids.contains(id),
        repair_plan::range_of(files, block_size, id, files.len()) is Some,
        0 <= j < repair_plan::range_of(files, block_size, id, files.len())->Some_0.1,
    ensures
        repair_plan::missing_blocks(files, block_size, ids).contains(
            repair_plan::range_of(files, block_size, id, files.len())->Some_0.0 + j,
        ),
    decreases ids.len(),
{
    let range = repair_plan::range_of(files, block_size, id, files.len())->Some_0;
    let all = repair_plan::missing_blocks(files, block_size, ids);
    let before = repair_plan::missing_blocks(files, block_size, ids.drop_last());
    if ids.last() == id {
        let part = repair_plan::counted(range.0, range.1);
        assert(all == before + part);
        assert(all[before.len() + j] == part[j]);
    } else {
        let k = choose|k: int| 0 <= k < ids.len() && ids[k] == id;
        assert(ids.drop_last()[k] == id);
        lemma_missing_listed(files, block_size, ids.drop_last(), id, j);
        let p = choose|p: int| 0 <= p < before.len() && before[p] == range.0 + j;
        assert(all[p] == range.0 + j);
    }
}

/// The set describes the files whose contents were `truth`, each once.
pub open spec fn is_set_of(par2: Par2File, truth: Seq<Seq<u8>>) -> bool {
    let files = parser::file_views(par2.files_in_order@);
    &&& ids_differ(files)
    &&& lengths_agree(files, truth)
    &&& forall|f: int|
        0 <= f < files.len() ==> par2.files@.dom().contains((#[trigger] files[f]).file_id)
            && par2.files@[files[f].file_id]@ == files[f]
    &&& forall|id: Seq<u8>| #[trigger]
        par2.files@.dom().contains(id) ==> exists|f: int|
            0 <= f < files.len() && (#[trigger] files[f]).file_id == id
}

/// What is left of file `f` is what it was, wherever no block has to be restored.
proof fn lemma_seed(
    repair: Repair,
    par2: Par2File,
    plan: RepairPlan,
    inputs: Map<Seq<u8>, Vec<u8>>,
    stores: Seq<StoredFile>,
    truth: Seq<Seq<u8>>,
    f: int,
    q: int,
)
    requires
        repair.is_for(par2, plan),
        par2.block_size > 0,
        is_set_of(par2, truth),
        0 <= f < truth.len(),
        plan.total_blocks == repair_plan::data_block_count(par2),
        is_faithful(
            repair,
            par2,
            inputs,
            stores,
            blocks::all_blocks(truth, par2.block_size as nat),
        ),
        0 <= q < truth[f].len(),
        repair::row_of(
            plan.damaged@,
            blocks::first_block(truth, par2.block_size as nat, f) + q / (par2.block_size as int),
            plan.damaged@.len(),
        ) is None,
    ensures
        repair::seed_of(
            Some(inputs[par2.files_in_order@[f].file_id@]@),
            truth[f].len(),
        )[q] == truth[f][q],
{
    let size = par2.block_size as nat;
    let files = parser::file_views(par2.files_in_order@);
    let data = blocks::all_blocks(truth, size);
    let start = blocks::first_block(truth, size, f);
    let j = q / (size as int);
    let k = q % (size as int);
    let b = start + j;
    assert(files[f] == par2.files_in_order@[f]@);
    blocks::law_blocks_hold_file(truth[f], size, q);
    assert(files[f].length == truth[f].len());
    blocks::law_block_numbers(truth, size, f, j);
    lemma_owner(files, truth, size as int, f, j, files.len());
    lemma_first_blocks_agree(files, truth, size as int, files.len() as int);
    let lengths = creator::lengths_of(files);
    assert(lengths.take(files.len() as int) =~= lengths);
    assert(truth.take(truth.len() as int) =~= truth);
    let n = plan.total_blocks as nat;
    assert(b < n);
    lemma_row_of(plan.damaged@, b, plan.damaged@.len());
    lemma_good_blocks(plan.damaged@, n);
    assert(!plan.damaged@.contains(b as usize)) by {
        if plan.damaged@.contains(b as usize) {
            let r = choose|r: int| 0 <= r < plan.damaged@.len() && plan.damaged@[r] == b as usize;
            assert(plan.damaged@[r] != b);
        }
    }
    assert(good(plan.damaged@, n).contains(b as usize));
    let c = choose|c: int| 0 <= c < repair.good@.len() && repair.good@[c] == b as usize;
    assert(repair.good@[c] == b);
    let source = repair.data_sources(par2, inputs)[c];
    assert(source == repair::data_source(files, size as int, inputs, b));
    assert(source == Source::Bytes(data[b]));
    let left = inputs[files[f].file_id]@;
    assert(source == Source::Bytes(blocks::block_at(left, size, j)));
    assert(blocks::block_at(left, size, j) == blocks::block_at(truth[f], size, j));
    assert(blocks::block_at(left, size, j)[k] == blocks::block_at(truth[f], size, j)[k]);
    assert(j * size + k == q) by (nonlinear_arith)
        requires
            size > 0,
            j == q / (size as int),
            k == q % (size as int),
    ;
}

/// Repair restores files as they were: if the files of a set once had the contents `truth`, the
/// recovery blocks were made from them, and all blocks that repair does not restore are unchanged,
/// then repair can read what it needs, and every file that it repairs has its old contents again.
pub proof fn law_repair_restores_files(
    repair: Repair,
    par2: Par2File,
    result: VerificationResult,
    plan: RepairPlan,
    inputs: Map<Seq<u8>, Vec<u8>>,
    stores: Seq<StoredFile>,
    truth: Seq<Seq<u8>>,
)
    requires
        repair_plan::is_plan(plan, par2, result),
        repair_plan::are_numbered(par2, result),
        repair.is_for(par2, plan),
        par2.block_size > 0,
        par2.block_size % 4 == 0,
        is_set_of(par2, truth),
        distinct(plan.damaged@),
        is_faithful(
            repair,
            par2,
            inputs,
            stores,
            blocks::all_blocks(truth, par2.block_size as nat),
        ),
    ensures
        repair.failure(par2, inputs, stores) is None,
        forall|f: int|
            0 <= f < truth.len() && repair::is_wanted(
                par2,
                result,
                (#[trigger] par2.files_in_order@[f]).file_id@,
            ) ==> repair::repaired_contents(
                par2,
                result,
                inputs,
                repair.damaged@,
                repair.rows(par2, inputs, stores),
                par2.files_in_order@[f].file_id@,
            ) == truth[f],
{
    let size = par2.block_size as nat;
    let files = parser::file_views(par2.files_in_order@);
    let data = blocks::all_blocks(truth, size);
    let rows = repair.rows(par2, inputs, stores);
    let damaged = plan.damaged@;
    repair_plan::lemma_plan(plan, par2, result);
    lemma_block_total(par2, truth);
    lemma_block_sizes(truth, size);
    law_blocks_are_restored(repair, par2, plan, inputs, stores, data);
    assert forall|f: int|
        0 <= f < truth.len() && repair::is_wanted(
            par2,
            result,
            (#[trigger] par2.files_in_order@[f]).file_id@,
        ) implies repair::repaired_contents(
        par2,
        result,
        inputs,
        damaged,
        rows,
        par2.files_in_order@[f].file_id@,
    ) == truth[f] by {
        let id = files[f].file_id;
        assert(id == par2.files_in_order@[f].file_id@);
        let start = blocks::first_block(truth, size, f);
        let count = blocks::block_count(truth[f].len() as int, size as int);
        lemma_range(files, size as int, f, files.len());
        lemma_first_blocks_agree(files, truth, size as int, f);
        assert(files[f].length == truth[f].len());
        assert(repair_plan::range_of(files, size as int, id, files.len()) == Some((start, count)));
        let is_damaged = parser::id_views(result.damaged_files@).contains(id);
        let seed = repair::seed_of(
            if is_damaged {
                Some(inputs[id]@)
            } else {
                None
            },
            truth[f].len(),
        );
        assert forall|r: int|
            0 <= r < damaged.len() && start <= #[trigger] damaged[r] < start
                + count implies rows[r] == blocks::block_at(truth[f], size, damaged[r] - start) by {
            blocks::law_block_numbers(truth, size, f, damaged[r] - start);
        }
        assert forall|q: int|
            0 <= q < truth[f].len() && repair::row_of(
                damaged,
                start + q / (size as int),
                damaged.len(),
            ) is None implies #[trigger] seed[q] == truth[f][q] by {
            if is_damaged {
                lemma_seed(repair, par2, plan, inputs, stores, truth, f, q);
            } else {
                let j = q / (size as int);
                blocks::law_blocks_hold_file(truth[f], size, q);
                let ids = parser::id_views(result.missing_files@);
                lemma_missing_listed(files, size as int, ids, id, j);
                let first = repair_plan::missing_blocks(files, size as int, ids);
                let p = choose|p: int| 0 <= p < first.len() && first[p] == start + j;
                let numbers = repair_plan::blocks_to_restore(par2, result);
                assert(numbers[p] == start + j);
                assert(solver::indices(damaged)[p] == start + j);
                lemma_row_of(damaged, start + j, damaged.len());
                assert(damaged[p] == start + j);
            }
        }
        law_file_is_restored(truth[f], seed, start, damaged, rows, size as int);
        assert(par2.files@[files[f].file_id]@ == files[f]);
        assert(par2.files@[id].length == truth[f].len());
    }
}

/// The set counts as many data blocks as its files have.
pub proof fn lemma_block_total(par2: Par2File, truth: Seq<Seq<u8>>)
    requires
        par2.block_size > 0,
        is_set_of(par2, truth),
    ensures
        repair_plan::data_block_count(par2) == blocks::all_blocks(
            truth,
            par2.block_size as nat,
        ).len(),
{
    let files = parser::file_views(par2.files_in_order@);
    lemma_first_blocks_agree(files, truth, par2.block_size as int, files.len() as int);
    let lengths = creator::lengths_of(files);
    assert(lengths.take(files.len() as int) =~= lengths);
    assert(truth.take(truth.len() as int) =~= truth);
}

proof fn lemma_block_sizes(files: Seq<Seq<u8>>, block_size: nat)
    ensures
        forall|b: int|
            0 <= b < blocks::all_blocks(files, block_size).len() ==> (
            #[trigger] blocks::all_blocks(files, block_size)[b]).len() == block_size,
    decreases files.len(),
{
    if files.len() > 0 {
        let before = files.drop_last();
        lemma_block_sizes(before, block_size);
        let all = blocks::all_blocks(files, block_size);
        let first = blocks::all_blocks(before, block_size);
        assert forall|b: int| 0 <= b < all.len() implies (#[trigger] all[b]).len()
            == block_size by {
            if b < first.len() {
                assert(all[b] == first[b]);
            }
        }
    }
}

/// The checksums and digests of the set are those of the files.
pub open spec fn has_checksums_of(par2: Par2File, truth: Seq<Seq<u8>>) -> bool {
    forall|f: int|
        0 <= f < truth.len() ==> repair::passes(
            par2,
            (#[trigger] par2.files_in_order@[f]).file_id@,
            truth[f],
        )
}

/// A repair from faithful data succeeds, and gives back each missing or damaged file as it was.
pub proof fn law_repair_succeeds(
    r: Result<Vec<RepairedFile>>,
    repair: Repair,
    par2: Par2File,
    result: VerificationResult,
    plan: RepairPlan,
    inputs: Map<Seq<u8>, Vec<u8>>,
    stores: Seq<StoredFile>,
    truth: Seq<Seq<u8>>,
)
    requires
        repair_plan::is_plan(plan, par2, result),
        repair_plan::are_numbered(par2, result),
        repair.is_for(par2, plan),
        par2.block_size > 0,
        par2.block_size % 4 == 0,
        is_set_of(par2, truth),
        has_checksums_of(par2, truth),
        distinct(plan.damaged@),
        is_faithful(
            repair,
            par2,
            inputs,
            stores,
            blocks::all_blocks(truth, par2.block_size as nat),
        ),
        repair::is_outcome(r, repair, par2, result, inputs, stores),
    ensures
        r is Ok,
        forall|i: int, f: int|
            0 <= i < r->Ok_0@.len() && 0 <= f < truth.len() && (#[trigger] r->Ok_0@[i]).file_id@
                == (#[trigger] par2.files_in_order@[f]).file_id@ ==> r->Ok_0@[i].data@ == truth[f],
        forall|f: int|
            0 <= f < truth.len() && repair::is_wanted(
                par2,
                result,
                (#[trigger] par2.files_in_order@[f]).file_id@,
            ) ==> exists|i: int|
                0 <= i < r->Ok_0@.len() && (#[trigger] r->Ok_0@[i]).file_id@
                    == par2.files_in_order@[f].file_id@,
{
    law_repair_restores_files(repair, par2, result, plan, inputs, stores, truth);
    let rows = repair.rows(par2, inputs, stores);
    let files = parser::file_views(par2.files_in_order@);
    assert forall|id: Seq<u8>| #[trigger] repair::is_wanted(par2, result, id) implies repair::passes(
        par2,
        id,
        repair::repaired_contents(par2, result, inputs, repair.damaged@, rows, id),
    ) by {
        assert(par2.files@.dom().contains(id));
        let f = choose|f: int| 0 <= f < files.len() && (#[trigger] files[f]).file_id == id;
        assert(par2.files_in_order@[f].file_id@ == id);
    }
    assert(repair::all_pass(par2, result, inputs, repair.damaged@, rows));
    assert(r is Ok);
    assert forall|i: int, f: int|
        0 <= i < r->Ok_0@.len() && 0 <= f < truth.len() && (#[trigger] r->Ok_0@[i]).file_id@ == (
        #[trigger] par2.files_in_order@[f]).file_id@ implies r->Ok_0@[i].data@ == truth[f] by {
        assert(repair::is_wanted(par2, result, r->Ok_0@[i].file_id@));
    }
}

} // verus!
