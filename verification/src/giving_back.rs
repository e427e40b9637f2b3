//! Whatever is lost of files comes back, as long as what is left of them is unchanged.

use vstd::prelude::*;

use crate::after_repair;
use crate::blocks;
use crate::creator;
use crate::detection;
use crate::elimination;
use crate::error::{Par2Error, Result};
use crate::limits;
use crate::loader::{Par2File, StoredFile};
use crate::messages::MessageLevel;
use crate::parser;
use crate::parser::{FileView, RecoveryView};
use crate::planning;
use crate::repair;
use crate::repair::{Repair, RepairedFile, Source};
use crate::repair_plan;
use crate::repair_plan::RepairPlan;
use crate::restoration;
use crate::round_trip;
use crate::text;
use crate::verify::VerificationResult;

verus! {

proof fn lemma_starts_are_first_blocks(
    files: Seq<FileView>,
    truth: Seq<Seq<u8>>,
    block_size: int,
    starts: Seq<int>,
    f: int,
)
    requires
        block_size > 0,
        restoration::lengths_agree(files, truth),
        limits::are_counted(creator::lengths_of(files), block_size, starts),
        0 <= f <= files.len(),
    ensures
        blocks::first_block(truth, block_size as nat, f) == starts[f],
        blocks::all_blocks(truth, block_size as nat).len() == starts.last(),
{
    let lengths = creator::lengths_of(files);
    restoration::lemma_first_blocks_agree(files, truth, block_size, f);
    restoration::lemma_first_blocks_agree(files, truth, block_size, files.len() as int);
    limits::law_blocks_are_counted(lengths, block_size, starts, f);
    limits::law_blocks_are_counted(lengths, block_size, starts, files.len() as int);
    assert(truth.take(files.len() as int) =~= truth);
}

/// Block `j` of a file is read from the file with its ID: the bytes that stand there, with zeros where it
/// has ended.
pub proof fn law_blocks_are_read_from_their_files(
    files: Seq<FileView>,
    block_size: int,
    starts: Seq<int>,
    inputs: Map<Seq<u8>, Vec<u8>>,
    f: int,
    j: int,
)
    requires
        block_size > 0,
        restoration::ids_differ(files),
        limits::are_counted(creator::lengths_of(files), block_size, starts),
        0 <= f < files.len(),
        0 <= j < starts[f + 1] - starts[f],
        inputs.dom().contains(files[f].file_id),
    ensures
        repair::data_source(files, block_size, inputs, starts[f] + j) == Source::Bytes(
            detection::bytes_of_block(inputs[files[f].file_id]@, block_size as nat, j),
        ),
{
    let truth = Seq::new(files.len(), |i: int| Seq::new(files[i].length as nat, |k: int| 0u8));
    let lengths = creator::lengths_of(files);
    lemma_starts_are_first_blocks(files, truth, block_size, starts, f);
    limits::law_count_is_least(starts[f + 1] - starts[f], lengths[f] as int, block_size);
    restoration::lemma_owner(files, truth, block_size, f, j, files.len());
    detection::lemma_block_bytes(inputs[files[f].file_id]@, block_size as nat, j);
}

/// A recovery block is read from the first file at its path: the bytes from its offset on. One in memory
/// is what it is.
pub proof fn law_recovery_blocks_are_read_from_their_files(
    block: RecoveryView,
    stores: Seq<StoredFile>,
    block_size: nat,
    v: int,
)
    requires
        block.data is None ==> {
            &&& 0 <= v < stores.len()
            &&& stores[v].path@ == block.file_path
            &&& forall|k: int| 0 <= k < v ==> (#[trigger] stores[k]).path@ != block.file_path
            &&& block.data_length == block_size
            &&& block.data_offset + block_size <= stores[v].data@.len()
        },
        block.data matches Some(data) ==> data.len() == block_size,
    ensures
        repair::recovery_contents(block, stores, block_size) == Some(
            match block.data {
                Some(data) => data,
                None => stores[v].data@.subrange(
                    block.data_offset as int,
                    block.data_offset + block_size,
                ),
            },
        ),
{
    match block.data {
        Some(data) => {
            assert(repair::filled(data, 0, data.len() as int, block_size) =~= data);
        },
        None => {
            lemma_stored_first(stores, block.file_path, v, 0);
            let file = stores[v].data@;
            let offset = block.data_offset as int;
            assert(repair::filled(file, offset, block.data_length as int, block_size)
                =~= file.subrange(offset, offset + block_size));
        },
    }
}

proof fn lemma_stored_first(stores: Seq<StoredFile>, path: Seq<char>, v: int, from: int)
    requires
        0 <= from <= v < stores.len(),
        stores[v].path@ == path,
        forall|k: int| 0 <= k < v ==> (#[trigger] stores[k]).path@ != path,
    ensures
        repair::stored_at(stores, path, from) == Some(stores[v].data@),
    decreases v - from,
{
    if from < v {
        assert(stores[from].path@ != path);
        lemma_stored_first(stores, path, v, from + 1);
    }
}

/// Block `j` of file `f` is lost, or what is there of the file still holds it.
pub open spec fn is_lost_or_kept(
    par2: Par2File,
    result: VerificationResult,
    inputs: Map<Seq<u8>, Vec<u8>>,
    truth: Seq<Seq<u8>>,
    starts: Seq<int>,
    f: int,
    j: int,
) -> bool {
    let id = par2.files_in_order@[f].file_id@;
    let size = par2.block_size as nat;
    ||| planning::is_lost_in(par2, result, starts, f, starts[f] + j)
    ||| inputs.dom().contains(id) && detection::bytes_of_block(inputs[id]@, size, j)
        == detection::bytes_of_block(truth[f], size, j)
}

/// Every block of every file is lost, or what is there of the file still holds it.
pub open spec fn rest_is_there(
    par2: Par2File,
    result: VerificationResult,
    inputs: Map<Seq<u8>, Vec<u8>>,
    truth: Seq<Seq<u8>>,
    starts: Seq<int>,
) -> bool {
    forall|f: int, j: int|
        0 <= f < truth.len() && 0 <= j < starts[f + 1] - starts[f] ==> #[trigger] is_lost_or_kept(
            par2,
            result,
            inputs,
            truth,
            starts,
            f,
            j,
        )
}

proof fn lemma_owner_of(lengths: Seq<u64>, block_size: int, starts: Seq<int>, b: int, n: int) -> (f: int)
    requires
        block_size > 0,
        limits::are_counted(lengths, block_size, starts),
        0 <= n <= lengths.len(),
        0 <= b < starts[n],
    ensures
        0 <= f < n,
        starts[f] <= b < starts[f + 1],
    decreases n,
{
    if b >= starts[n - 1] {
        n - 1
    } else {
        lemma_owner_of(lengths, block_size, starts, b, n - 1)
    }
}

proof fn lemma_rest(
    par2: Par2File,
    result: VerificationResult,
    inputs: Map<Seq<u8>, Vec<u8>>,
    truth: Seq<Seq<u8>>,
    starts: Seq<int>,
)
    requires
        par2.block_size > 0,
        restoration::is_set_of(par2, truth),
        limits::are_counted(
            creator::lengths_of(parser::file_views(par2.files_in_order@)),
            par2.block_size as int,
            starts,
        ),
        rest_is_there(par2, result, inputs, truth, starts),
    ensures
        round_trip::rest_is_unchanged(
            par2,
            result,
            inputs,
            blocks::all_blocks(truth, par2.block_size as nat),
        ),
{
    let files = parser::file_views(par2.files_in_order@);
    let lengths = creator::lengths_of(files);
    let size = par2.block_size as int;
    let data = blocks::all_blocks(truth, size as nat);
    lemma_starts_are_first_blocks(files, truth, size, starts, 0);
    assert forall|b: int|
        0 <= b < data.len() && !repair_plan::blocks_to_restore(par2, result).contains(
            b,
        ) implies #[trigger] repair::data_source(files, size, inputs, b) == Source::Bytes(data[b]) by {
        let f = lemma_owner_of(lengths, size, starts, b, lengths.len() as int);
        let j = b - starts[f];
        assert(is_lost_or_kept(par2, result, inputs, truth, starts, f, j));
        planning::law_damaged_blocks_are_restored(par2, result, starts, b);
        assert(!planning::is_lost_in(par2, result, starts, f, b));
        assert(files[f].file_id == par2.files_in_order@[f].file_id@);
        law_blocks_are_read_from_their_files(files, size, starts, inputs, f, j);
        lemma_starts_are_first_blocks(files, truth, size, starts, f);
        limits::law_count_is_least(starts[f + 1] - starts[f], lengths[f] as int, size);
        assert(files[f].length == truth[f].len());
        blocks::law_block_numbers(truth, size as nat, f, j);
        detection::lemma_block_bytes(truth[f], size as nat, j);
    }
}

/// Lost files come back: a set whose blocks number at most 65535, with recovery blocks that are those of
/// the files and determine what is lost, and at least as many of them as blocks are lost, gives back
/// every file that is damaged or missing, as long as what is left of the files is unchanged.
pub proof fn law_lost_files_come_back(
    r: Result<Vec<RepairedFile>>,
    par2: Par2File,
    result: VerificationResult,
    inputs: Map<Seq<u8>, Vec<u8>>,
    stores: Seq<StoredFile>,
    unreadable: Seq<char>,
    truth: Seq<Seq<u8>>,
    starts: Seq<int>,
)
    requires
        repair::is_repair(r, par2, result, inputs, stores, false, unreadable),
        0 < par2.block_size <= usize::MAX,
        par2.block_size % 4 == 0,
        limits::are_counted(
            creator::lengths_of(parser::file_views(par2.files_in_order@)),
            par2.block_size as int,
            starts,
        ),
        starts.last() + par2.recovery_blocks@.len() <= 65535,
        0 < repair_plan::blocks_to_restore(par2, result).len(),
        repair_plan::blocks_to_restore(par2, result).len() <= par2.recovery_blocks@.len(),
        round_trip::no_repeats(repair_plan::blocks_to_restore(par2, result)),
        forall|k: int|
            0 <= k < repair_plan::blocks_to_restore(par2, result).len()
                ==> #[trigger] repair_plan::blocks_to_restore(par2, result)[k] < starts.last(),
        forall|k: int|
            0 <= k < result.damaged_files@.len() ==> inputs.dom().contains(
                (#[trigger] result.damaged_files@[k])@,
            ),
        restoration::is_set_of(par2, truth),
        restoration::has_checksums_of(par2, truth),
        round_trip::is_determined(par2, result),
        round_trip::recovery_is_of(
            par2,
            stores,
            blocks::all_blocks(truth, par2.block_size as nat),
        ),
        rest_is_there(par2, result, inputs, truth, starts),
    ensures
        r is Ok,
        round_trip::are_as_before(r->Ok_0@, par2, result, truth),
{
    limits::law_sets_are_accepted(par2, starts);
    lemma_rest(par2, result, inputs, truth, starts);
    round_trip::law_repair_gives_back_lost_files(
        r,
        par2,
        result,
        inputs,
        stores,
        unreadable,
        truth,
    );
}

/// File `f` is among those that were repaired, under its name and with its old contents.
pub open spec fn comes_back(
    out: Seq<RepairedFile>,
    par2: Par2File,
    truth: Seq<Seq<u8>>,
    f: int,
) -> bool {
    exists|i: int|
        0 <= i < out.len() && (#[trigger] out[i]).file_id@ == par2.files_in_order@[f].file_id@
            && out[i].name@ == par2.files_in_order@[f].name@ && out[i].data@ == truth[f]
}

proof fn lemma_names(
    out: Seq<RepairedFile>,
    par2: Par2File,
    result: VerificationResult,
    inputs: Map<Seq<u8>, Vec<u8>>,
    damaged: Seq<usize>,
    rows: Seq<Seq<u8>>,
    truth: Seq<Seq<u8>>,
    f: int,
)
    requires
        repair::are_repaired(out, par2, result, inputs, damaged, rows),
        restoration::is_set_of(par2, truth),
        round_trip::are_as_before(out, par2, result, truth),
        0 <= f < truth.len(),
        parser::id_views(result.missing_files@).contains(par2.files_in_order@[f].file_id@)
            || parser::id_views(result.damaged_files@).contains(par2.files_in_order@[f].file_id@),
    ensures
        comes_back(out, par2, truth, f),
{
    let files = parser::file_views(par2.files_in_order@);
    let id = par2.files_in_order@[f].file_id@;
    assert(files[f].file_id == id);
    assert(par2.files@.dom().contains(files[f].file_id));
    assert(par2.files@[files[f].file_id]@ == files[f]);
    assert(repair::is_wanted(par2, result, id));
    let i = choose|i: int| 0 <= i < out.len() && (#[trigger] out[i]).file_id@ == id;
    assert(out[i].name@ == par2.files@[id].name@);
    assert(par2.files@[id]@.name == par2.files@[id].name@);
    assert(files[f].name == par2.files_in_order@[f].name@);
    assert(out[i].data@ == truth[f]);
}

/// A repair that is not refused or cancelled puts files together from some blocks.
proof fn lemma_put_together(
    r: Result<Vec<RepairedFile>>,
    par2: Par2File,
    result: VerificationResult,
    inputs: Map<Seq<u8>, Vec<u8>>,
    stores: Seq<StoredFile>,
    cancelled: bool,
    unreadable: Seq<char>,
) -> (parts: (Seq<usize>, Seq<Seq<u8>>))
    requires
        repair::is_repair(r, par2, result, inputs, stores, cancelled, unreadable),
        r is Ok,
    ensures
        repair::are_repaired(r->Ok_0@, par2, result, inputs, parts.0, parts.1),
{
    if repair_plan::blocks_to_restore(par2, result).len() == 0 {
        (seq![], seq![])
    } else {
        assert(repair::is_begun(r, par2, result, inputs, stores, unreadable));
        let plan = choose|plan: RepairPlan|
            #[trigger] repair_plan::is_plan(plan, par2, result) && !elimination::singular(
                repair::damage_matrix(par2, plan),
                plan.damaged@.len(),
            ) && exists|repair: Repair|
                #[trigger] repair.is_for(par2, plan) && repair.unreadable@ == unreadable
                    && repair::is_outcome(r, repair, par2, result, inputs, stores);
        let repair = choose|repair: Repair|
            #[trigger] repair.is_for(par2, plan) && repair.unreadable@ == unreadable
                && repair::is_outcome(r, repair, par2, result, inputs, stores);
        (repair.damaged@, repair.rows(par2, inputs, stores))
    }
}

/// Whatever repair gives back has been checked, and whatever is missing or damaged and known to the set is
/// given back, under its name and with the length that it should have: a repair that succeeds leaves
/// nothing out.
pub proof fn law_successful_repairs_leave_nothing_out(
    r: Result<Vec<RepairedFile>>,
    par2: Par2File,
    result: VerificationResult,
    inputs: Map<Seq<u8>, Vec<u8>>,
    stores: Seq<StoredFile>,
    cancelled: bool,
    unreadable: Seq<char>,
    i: int,
)
    requires
        repair::is_repair(r, par2, result, inputs, stores, cancelled, unreadable),
        r is Ok,
        par2.files.wf(),
        0 <= i < par2.files.entries@.len(),
        parser::id_views(result.missing_files@).contains(par2.files.entries@[i].0@)
            || parser::id_views(result.damaged_files@).contains(par2.files.entries@[i].0@),
    ensures
        exists|k: int|
            0 <= k < r->Ok_0@.len() && (#[trigger] r->Ok_0@[k]).file_id@
                == par2.files.entries@[i].0@ && r->Ok_0@[k].name@
                == par2.files.entries@[i].1.name@ && detection::is_right(
                par2,
                i,
                r->Ok_0@[k].data@,
            ),
{
    let id = par2.files.entries@[i].0@;
    let out = r->Ok_0@;
    par2.files.lemma_entry(i);
    assert(repair::is_wanted(par2, result, id));
    let parts = lemma_put_together(r, par2, result, inputs, stores, cancelled, unreadable);
    after_repair::law_successful_repairs_are_complete(
        r,
        par2,
        result,
        inputs,
        stores,
        cancelled,
        unreadable,
    );
    let k = choose|k: int| 0 <= k < out.len() && (#[trigger] out[k]).file_id@ == id;
    assert(out[k].name@ == par2.files@[id].name@);
    detection::law_repaired_files_are_checked(par2, i, out[k].data@);
}

/// Every file that is missing or damaged comes back, if what is left of the files is unchanged.
pub proof fn law_every_lost_file_comes_back(
    r: Result<Vec<RepairedFile>>,
    par2: Par2File,
    result: VerificationResult,
    inputs: Map<Seq<u8>, Vec<u8>>,
    stores: Seq<StoredFile>,
    unreadable: Seq<char>,
    truth: Seq<Seq<u8>>,
    starts: Seq<int>,
    f: int,
)
    requires
        repair::is_repair(r, par2, result, inputs, stores, false, unreadable),
        0 < par2.block_size <= usize::MAX,
        par2.block_size % 4 == 0,
        limits::are_counted(
            creator::lengths_of(parser::file_views(par2.files_in_order@)),
            par2.block_size as int,
            starts,
        ),
        starts.last() + par2.recovery_blocks@.len() <= 65535,
        0 < repair_plan::blocks_to_restore(par2, result).len(),
        repair_plan::blocks_to_restore(par2, result).len() <= par2.recovery_blocks@.len(),
        round_trip::no_repeats(repair_plan::blocks_to_restore(par2, result)),
        forall|k: int|
            0 <= k < repair_plan::blocks_to_restore(par2, result).len()
                ==> #[trigger] repair_plan::blocks_to_restore(par2, result)[k] < starts.last(),
        forall|k: int|
            0 <= k < result.damaged_files@.len() ==> inputs.dom().contains(
                (#[trigger] result.damaged_files@[k])@,
            ),
        restoration::is_set_of(par2, truth),
        restoration::has_checksums_of(par2, truth),
        round_trip::is_determined(par2, result),
        round_trip::recovery_is_of(
            par2,
            stores,
            blocks::all_blocks(truth, par2.block_size as nat),
        ),
        rest_is_there(par2, result, inputs, truth, starts),
        0 <= f < truth.len(),
        parser::id_views(result.missing_files@).contains(par2.files_in_order@[f].file_id@)
            || parser::id_views(result.damaged_files@).contains(par2.files_in_order@[f].file_id@),
    ensures
        r is Ok,
        comes_back(r->Ok_0@, par2, truth, f),
{
    law_lost_files_come_back(r, par2, result, inputs, stores, unreadable, truth, starts);
    let parts = lemma_put_together(r, par2, result, inputs, stores, false, unreadable);
    lemma_names(r->Ok_0@, par2, result, inputs, parts.0, parts.1, truth, f);
}

/// Too much damage is refused: if more blocks are lost than there are recovery blocks, the error tells
/// both numbers.
pub proof fn law_too_much_damage_is_refused(
    r: Result<Vec<RepairedFile>>,
    par2: Par2File,
    result: VerificationResult,
    inputs: Map<Seq<u8>, Vec<u8>>,
    stores: Seq<StoredFile>,
    cancelled: bool,
    unreadable: Seq<char>,
    starts: Seq<int>,
)
    requires
        repair::is_repair(r, par2, result, inputs, stores, cancelled, unreadable),
        0 < par2.block_size <= usize::MAX,
        par2.block_size % 4 == 0,
        limits::are_counted(
            creator::lengths_of(parser::file_views(par2.files_in_order@)),
            par2.block_size as int,
            starts,
        ),
        starts.last() + par2.recovery_blocks@.len() <= 65535,
        par2.recovery_blocks@.len() < repair_plan::blocks_to_restore(par2, result).len()
            <= usize::MAX,
    ensures
        r is Err,
        r->Err_0 matches Par2Error::InsufficientRecovery { needed, available } && needed
            == repair_plan::blocks_to_restore(par2, result).len() && available
            == par2.recovery_blocks@.len(),
{
    limits::law_sets_are_accepted(par2, starts);
}

/// A repair that begins says how many blocks it restores.
pub proof fn law_repair_says_how_much_it_restores(par2: Par2File, result: VerificationResult, starts: Seq<int>)
    requires
        0 < par2.block_size <= usize::MAX,
        par2.block_size % 4 == 0,
        limits::are_counted(
            creator::lengths_of(parser::file_views(par2.files_in_order@)),
            par2.block_size as int,
            starts,
        ),
        starts.last() + par2.recovery_blocks@.len() <= 65535,
        0 < repair_plan::blocks_to_restore(par2, result).len() <= par2.recovery_blocks@.len(),
    ensures
        repair::repair_messages(par2, result) == seq![
            (
                MessageLevel::Info,
                "Repairing "@ + text::decimal_digits(
                    repair_plan::blocks_to_restore(par2, result).len(),
                ) + " damaged blocks"@,
            ),
        ],
{
    limits::law_sets_are_accepted(par2, starts);
}

} // verus!
