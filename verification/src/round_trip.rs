//! From the creation of a set to repair with it.

use vstd::prelude::*;

use crate::blocks;
use crate::constants;
use crate::created_sets;
use crate::creator;
use crate::creator::{Par2Creator, SetView};
use crate::elimination;
use crate::error::{Par2Error, Result};
use crate::found_damage;
use crate::galois::sums;
use crate::limits;
use crate::loader;
use crate::loader::{Par2File, StoredFile};
use crate::ordering;
use crate::parser;
use crate::parser::{ChecksumView, FileInfo, FileView};
use crate::paths;
use crate::reading_back;
use crate::repair;
use crate::repair::{Repair, RepairedFile, Source};
use crate::repair_plan;
use crate::repair_plan::RepairPlan;
use crate::restoration;
use crate::solver;
use crate::text;
use crate::verify;
use crate::verify::VerificationResult;
use crate::volumes;
use crate::volumes::VolumeScheme;
use crate::writer;

verus! {

/// A file whose checksums were taken is found to be what it should be as long as it is not changed.
pub proof fn law_unchanged_files_verify(data: Seq<u8>, file: FileView, block_size: nat)
    ensures
        verify::is_valid(
            data,
            file,
            Some(creator::file_checksums(data, block_size)),
            block_size,
        ),
{
    let list = creator::file_checksums(data, block_size);
    lemma_none_damaged(data, list, block_size, list.len());
}

proof fn lemma_none_damaged(
    data: Seq<u8>,
    list: Seq<ChecksumView>,
    block_size: nat,
    n: nat,
)
    requires
        n <= list.len(),
        list == creator::file_checksums(data, block_size),
    ensures
        verify::damaged_blocks(data, list, block_size, n).len() == 0,
    decreases n,
{
    if n > 0 {
        lemma_none_damaged(data, list, block_size, (n - 1) as nat);
        assert(verify::block_is_good(data, list, block_size, n - 1));
    }
}

/// A file without checksums of its blocks is found to be what it should be as long as it is not
/// changed.
pub proof fn law_unchanged_files_verify_by_digest(name: Seq<char>, data: Seq<u8>, block_size: nat)
    ensures
        verify::is_valid(data, creator::described(name, data), None, block_size),
{
}

proof fn lemma_with_files(files: Seq<FileView>)
    requires
        restoration::ids_differ(files),
    ensures
        forall|f: int|
            0 <= f < files.len() ==> reading_back::with_files(Map::empty(), files).dom().contains(
                (#[trigger] files[f]).file_id,
            ) && reading_back::with_files(Map::empty(), files)[files[f].file_id] == files[f],
        forall|id: Seq<u8>| #[trigger]
            reading_back::with_files(Map::empty(), files).dom().contains(id) ==> exists|f: int|
                0 <= f < files.len() && (#[trigger] files[f]).file_id == id,
    decreases files.len(),
{
    if files.len() > 0 {
        let before = files.drop_last();
        assert(restoration::ids_differ(before));
        lemma_with_files(before);
        let table = reading_back::with_files(Map::empty(), files);
        let first = reading_back::with_files(Map::empty(), before);
        assert(table == first.insert(files.last().file_id, files.last()));
        assert forall|f: int| 0 <= f < files.len() implies table.dom().contains(
            (#[trigger] files[f]).file_id,
        ) && table[files[f].file_id] == files[f] by {
            if f < before.len() {
                assert(before[f] == files[f]);
                assert(files[f].file_id != files[files.len() - 1].file_id);
            }
        }
        assert forall|id: Seq<u8>| #[trigger] table.dom().contains(id) implies exists|f: int|
            0 <= f < files.len() && (#[trigger] files[f]).file_id == id by {
            if id == files.last().file_id {
                assert(files[files.len() - 1].file_id == id);
            } else {
                assert(first.dom().contains(id));
                let f = choose|f: int| 0 <= f < before.len() && (#[trigger] before[f]).file_id == id;
                assert(files[f].file_id == id);
            }
        }
    }
}

proof fn lemma_table_entry(
    files: Seq<FileView>,
    checksums: Seq<Seq<ChecksumView>>,
    n: nat,
    f: int,
)
    requires
        restoration::ids_differ(files),
        0 <= f < n <= files.len(),
    ensures
        creator::checksum_table(files, checksums, n).dom().contains(files[f].file_id),
        creator::checksum_table(files, checksums, n)[files[f].file_id] == checksums[f],
    decreases n,
{
    if f < n - 1 {
        lemma_table_entry(files, checksums, (n - 1) as nat, f);
        assert(files[f].file_id != files[n - 1].file_id);
    }
}

/// No two files have the same path.
pub open spec fn paths_differ(files: Seq<StoredFile>) -> bool {
    forall|i: int, j: int|
        0 <= i < j < files.len() ==> (#[trigger] files[i]).path@ != (#[trigger] files[j]).path@
}

/// No two files of a created set have the same path, if the output path is simple.
pub proof fn law_created_paths_differ(
    out: Seq<StoredFile>,
    set: SetView,
    recovery: Seq<(u32, Seq<u8>)>,
    scheme: VolumeScheme,
    output_path: Seq<char>,
)
    requires
        creator::is_created(out, set, recovery, scheme, output_path),
        paths::is_simple(output_path),
        forall|i: int, j: int| 0 <= i < j < recovery.len() ==> recovery[i].0 < recovery[j].0,
    ensures
        paths_differ(out),
{
    let base = paths::stem(output_path);
    let dir = paths::directory(output_path);
    let planned = volumes::planned_volumes(recovery, scheme, base);
    volumes::law_volume_names_differ(recovery, scheme, base);
    volumes::law_base_name_names_volumes(recovery, scheme, base, seq![]);
    paths::law_path_lies_in_directory(output_path);
    assert forall|i: int, j: int| 0 <= i < j < out.len() implies (#[trigger] out[i]).path@ != (
    #[trigger] out[j]).path@ by {
        if out[i].path@ == out[j].path@ {
            if i == 0 {
                volumes::lemma_path_is_name(recovery, scheme, base, j - 1);
                paths::law_names_tell_paths(
                    dir,
                    output_path,
                    out[j].path@,
                    paths::last_part(output_path),
                    planned[j - 1].path,
                );
                volumes::law_volume_name_is_new(
                    output_path,
                    planned[j - 1].exponent_start,
                    planned[j - 1].exponent_end,
                    text::decimal_digits(recovery.last().0 as nat).len(),
                );
            } else {
                paths::law_names_tell_paths(
                    dir,
                    out[i].path@,
                    out[j].path@,
                    planned[i - 1].path,
                    planned[j - 1].path,
                );
            }
        }
    }
}

proof fn lemma_stored(files: Seq<StoredFile>, v: int, from: int)
    requires
        paths_differ(files),
        0 <= from <= v < files.len(),
    ensures
        repair::stored_at(files, files[v].path@, from) == Some(files[v].data@),
    decreases v - from,
{
    if from < v {
        assert(files[from].path@ != files[v].path@);
        lemma_stored(files, v, from + 1);
    }
}

/// A recovery block of a created set that was loaded holds what was written.
pub proof fn law_recovery_blocks_are_found(
    out: Seq<StoredFile>,
    recovery: Seq<(u32, Seq<u8>)>,
    blocks: Seq<parser::RecoveryView>,
    block_size: u64,
    i: int,
)
    requires
        created_sets::are_found_in(blocks, out, recovery, block_size),
        paths_differ(out),
        0 <= i < recovery.len(),
        recovery[i].1.len() == block_size,
    ensures
        blocks[i].exponent == recovery[i].0,
        repair::recovery_contents(blocks[i], out, block_size as nat) == Some(recovery[i].1),
{
    assert(created_sets::is_found_in(blocks[i], out, recovery[i], block_size));
    let v = choose|v: int|
        0 <= v < out.len() && reading_back::is_written(
            blocks[i],
            (#[trigger] out[v]).data@,
            recovery[i],
            block_size,
            out[v].path@,
        );
    lemma_stored(out, v, 0);
    let data = out[v].data@;
    let offset = blocks[i].data_offset as int;
    let got = repair::filled(data, offset, block_size as int, block_size as nat);
    let want = recovery[i].1;
    assert(data.subrange(offset, offset + want.len()) == want);
    assert forall|p: int| 0 <= p < want.len() implies got[p] == want[p] by {
        assert(data.subrange(offset, offset + want.len())[p] == data[offset + p]);
    }
    assert(got =~= want);
}

/// The files that were created are those of a creator, and the set was loaded from them.
#[verifier::opaque]
pub open spec fn is_created_and_loaded(
    c: Par2Creator,
    files: Seq<FileInfo>,
    recovery_bytes: u64,
    out: Seq<StoredFile>,
    par2: Par2File,
) -> bool {
    &&& creator::describes(files, c.input_files@)
    &&& 0 < files.len() <= u32::MAX
    &&& 0 < c.size() <= u64::MAX
    &&& c.size() % 4 == 0
    &&& forall|f: int| 0 <= f < files.len() ==> reading_back::no_zero((#[trigger] files[f]).name@)
    &&& creator::is_created(
        out,
        c.set(parser::file_views(files)),
        c.recovery(parser::file_views(files), recovery_bytes),
        c.volume_scheme,
        out[0].path@,
    )
    &&& loader::is_loaded(
        par2,
        out[0].data@,
        out[0].path@,
        out.skip(1),
        loader::scan(out[0].data@, 0, out[0].path@, loader::nothing()),
    )
    &&& restoration::ids_differ(parser::file_views(files))
}

/// The files of a set in the order of their IDs.
spec fn listed(files: Seq<FileInfo>) -> Seq<FileView> {
    ordering::arranged(parser::file_views(files), file_order(files))
}

/// The order of the files of a set.
spec fn file_order(files: Seq<FileInfo>) -> Seq<int> {
    writer::id_order(creator::ids_of(parser::file_views(files)))
}

proof fn lemma_loaded_files(
    c: Par2Creator,
    files: Seq<FileInfo>,
    recovery_bytes: u64,
    out: Seq<StoredFile>,
    par2: Par2File,
)
    requires
        is_created_and_loaded(c, files, recovery_bytes, out, par2),
    ensures
        creator::describes(files, c.input_files@),
        par2.block_size == c.size(),
        par2.block_size > 0,
        par2.block_size % 4 == 0,
        restoration::ids_differ(parser::file_views(files)),
        sums::is_permutation(file_order(files), files.len()),
        parser::file_views(par2.files_in_order@) == listed(files),
        loader::file_map(par2.files@) == reading_back::with_files(
            Map::empty(),
            parser::file_views(files),
        ),
        loader::checksum_map(par2.slice_checksums@) == c.set(parser::file_views(files)).table(),
        created_sets::are_found_in(
            parser::recovery_views(par2.recovery_blocks@),
            out,
            c.recovery(parser::file_views(files), recovery_bytes),
            par2.block_size,
        ),
{
    reveal(is_created_and_loaded);
    let views = parser::file_views(files);
    let set = c.set(views);
    created_sets::law_created_sets_are_readable(c, files);
    created_sets::law_created_set_loads(
        out,
        set,
        c.recovery(parser::file_views(files), recovery_bytes),
        c.volume_scheme,
        par2,
    );
    assert(set.ids() =~= creator::ids_of(views));
    created_sets::law_files_are_listed_by_their_ids(
        views,
        parser::file_views(par2.files_in_order@),
    );
}

proof fn lemma_created_paths(
    c: Par2Creator,
    files: Seq<FileInfo>,
    recovery_bytes: u64,
    out: Seq<StoredFile>,
    par2: Par2File,
)
    requires
        is_created_and_loaded(c, files, recovery_bytes, out, par2),
        paths::is_simple(out[0].path@) || paths_differ(out),
        c.recovery(parser::file_views(files), recovery_bytes).len() <= u32::MAX,
    ensures
        paths_differ(out),
{
    reveal(is_created_and_loaded);
    let views = parser::file_views(files);
    if paths::is_simple(out[0].path@) {
        law_created_paths_differ(
            out,
            c.set(views),
            c.recovery(views, recovery_bytes),
            c.volume_scheme,
            out[0].path@,
        );
    }
}

proof fn lemma_listed(files: Seq<FileInfo>)
    requires
        restoration::ids_differ(parser::file_views(files)),
        sums::is_permutation(file_order(files), files.len()),
    ensures
        restoration::ids_differ(listed(files)),
{
    let views = parser::file_views(files);
    let order = file_order(files);
    let list = listed(files);
    assert forall|f: int, g: int| 0 <= f < g < list.len() implies (#[trigger] list[f]).file_id
        != (#[trigger] list[g]).file_id by {
        assert(order[f] != order[g]);
        if order[f] < order[g] {
            assert(views[order[f]].file_id != views[order[g]].file_id);
        } else {
            assert(views[order[g]].file_id != views[order[f]].file_id);
        }
    }
}

proof fn lemma_loaded_set(
    c: Par2Creator,
    files: Seq<FileInfo>,
    recovery_bytes: u64,
    out: Seq<StoredFile>,
    par2: Par2File,
)
    requires
        is_created_and_loaded(c, files, recovery_bytes, out, par2),
    ensures
        restoration::is_set_of(par2, c.ordered(parser::file_views(files))),
{
    lemma_loaded_files(c, files, recovery_bytes, out, par2);
    lemma_listed(files);
    let views = parser::file_views(files);
    let order = file_order(files);
    let list = listed(files);
    let truth = c.ordered(views);
    lemma_with_files(views);
    let map = loader::file_map(par2.files@);
    assert forall|f: int| 0 <= f < list.len() implies par2.files@.dom().contains(
        (#[trigger] list[f]).file_id,
    ) && par2.files@[list[f].file_id]@ == list[f] && list[f].length == truth[f].len() by {
        let k = order[f];
        assert(0 <= k < files.len());
        assert(list[f] == views[k]);
        assert(map.dom().contains(views[k].file_id));
        assert(map[views[k].file_id] == views[k]);
        assert(files[k]@ == creator::described(files[k].name@, c.input_files@[k].data@));
        assert(c.input_files@[k].data.len() == c.input_files@[k].data@.len());
        assert(truth[f] == c.input_files@[k].data@);
    }
    assert forall|id: Seq<u8>| #[trigger] par2.files@.dom().contains(id) implies exists|f: int|
        0 <= f < list.len() && (#[trigger] list[f]).file_id == id by {
        assert(map.dom().contains(id));
        let k = choose|k: int| 0 <= k < views.len() && (#[trigger] views[k]).file_id == id;
        sums::lemma_permutation_onto(order, files.len(), k);
        let f = choose|f: int| 0 <= f < files.len() && #[trigger] order[f] == k;
        assert(list[f] == views[k]);
    }
}

proof fn lemma_loaded_checksums(
    c: Par2Creator,
    files: Seq<FileInfo>,
    recovery_bytes: u64,
    out: Seq<StoredFile>,
    par2: Par2File,
    f: int,
)
    requires
        is_created_and_loaded(c, files, recovery_bytes, out, par2),
        0 <= f < files.len(),
    ensures
        par2.slice_checksums@.dom().contains(par2.files_in_order@[f].file_id@),
        parser::checksum_views(par2.slice_checksums@[par2.files_in_order@[f].file_id@]@)
            == creator::file_checksums(
            c.ordered(parser::file_views(files))[f],
            par2.block_size as nat,
        ),
{
    lemma_loaded_files(c, files, recovery_bytes, out, par2);
    let views = parser::file_views(files);
    let set = c.set(views);
    let k = file_order(files)[f];
    assert(0 <= k < files.len());
    let id = views[k].file_id;
    assert(listed(files)[f] == views[k]);
    assert(parser::file_views(par2.files_in_order@).len() == par2.files_in_order@.len());
    assert(parser::file_views(par2.files_in_order@)[f] == par2.files_in_order@[f]@);
    assert(c.ordered(views)[f] == c.input_files@[k].data@);
    lemma_table_entry(views, set.checksums, views.len(), k);
    let table = loader::checksum_map(par2.slice_checksums@);
    assert(table.dom().contains(id));
    assert(table[id] == parser::checksum_views(par2.slice_checksums@[id]@));
}

proof fn lemma_loaded_recovery(
    c: Par2Creator,
    files: Seq<FileInfo>,
    recovery_bytes: u64,
    out: Seq<StoredFile>,
    par2: Par2File,
    i: int,
)
    requires
        is_created_and_loaded(c, files, recovery_bytes, out, par2),
        paths_differ(out),
        c.recovery(parser::file_views(files), recovery_bytes).len() <= u32::MAX,
        0 <= i < par2.recovery_blocks@.len(),
    ensures
        par2.recovery_blocks@[i].exponent == i,
        repair::recovery_contents(par2.recovery_blocks@[i]@, out, par2.block_size as nat) == Some(
            creator::recovery_data(
                blocks::all_blocks(c.ordered(parser::file_views(files)), par2.block_size as nat),
                par2.block_size as nat,
                i as nat,
            ),
        ),
{
    lemma_loaded_files(c, files, recovery_bytes, out, par2);
    let size = par2.block_size as nat;
    let truth = c.ordered(parser::file_views(files));
    let recovery = c.recovery(parser::file_views(files), recovery_bytes);
    let list = parser::recovery_views(par2.recovery_blocks@);
    assert(list[i] == par2.recovery_blocks@[i]@);
    let data = creator::recovery_data(blocks::all_blocks(truth, size), size, i as nat);
    assert(recovery[i] == (i as u32, data));
    assert(data.len() == 2 * (size / 2));
    law_recovery_blocks_are_found(out, recovery, list, par2.block_size, i);
}

/// A set that was created and loaded can repair the files that it was created from, if their IDs
/// differ, and the output path is simple or the created files have different paths: it describes these
/// files, their checksums are those of the set, and its recovery blocks are those of their data blocks.
pub proof fn law_created_sets_can_repair(
    c: Par2Creator,
    files: Seq<FileInfo>,
    recovery_bytes: u64,
    out: Seq<StoredFile>,
    par2: Par2File,
)
    requires
        is_created_and_loaded(c, files, recovery_bytes, out, par2),
        paths::is_simple(out[0].path@) || paths_differ(out),
        c.recovery(parser::file_views(files), recovery_bytes).len() <= u32::MAX,
    ensures
        par2.block_size == c.size(),
        restoration::is_set_of(par2, c.ordered(parser::file_views(files))),
        restoration::has_checksums_of(par2, c.ordered(parser::file_views(files))),
        par2.recovery_blocks@.len() == c.recovery(parser::file_views(files), recovery_bytes).len(),
        exponents_count_up(par2, 0),
        recovery_is_of(
            par2,
            out,
            blocks::all_blocks(c.ordered(parser::file_views(files)), par2.block_size as nat),
        ),
{
    lemma_loaded_files(c, files, recovery_bytes, out, par2);
    lemma_loaded_set(c, files, recovery_bytes, out, par2);
    lemma_created_paths(c, files, recovery_bytes, out, par2);
    let truth = c.ordered(parser::file_views(files));
    let size = par2.block_size as nat;
    assert forall|f: int| 0 <= f < truth.len() implies repair::passes(
        par2,
        (#[trigger] par2.files_in_order@[f]).file_id@,
        truth[f],
    ) by {
        lemma_loaded_checksums(c, files, recovery_bytes, out, par2, f);
        law_unchanged_files_verify(
            truth[f],
            par2.files@[par2.files_in_order@[f].file_id@]@,
            size,
        );
    }
    assert forall|i: int| 0 <= i < par2.recovery_blocks@.len() implies (
    #[trigger] par2.recovery_blocks@[i]).exponent == i && repair::recovery_contents(
        par2.recovery_blocks@[i]@,
        out,
        size,
    ) == Some(creator::recovery_data(blocks::all_blocks(truth, size), size, i as nat)) by {
        lemma_loaded_recovery(c, files, recovery_bytes, out, par2, i);
    }
}

proof fn lemma_table_ids(
    files: Seq<FileView>,
    checksums: Seq<Seq<ChecksumView>>,
    n: nat,
    id: Seq<u8>,
) -> (f: int)
    requires
        creator::checksum_table(files, checksums, n).dom().contains(id),
    ensures
        0 <= f < n,
        files[f].file_id == id,
    decreases n,
{
    if files[n - 1].file_id == id {
        n - 1
    } else {
        lemma_table_ids(files, checksums, (n - 1) as nat, id)
    }
}

/// In a set that was created and loaded no file has more checksums than blocks.
pub proof fn law_created_checksums_fit(
    c: Par2Creator,
    files: Seq<FileInfo>,
    recovery_bytes: u64,
    out: Seq<StoredFile>,
    par2: Par2File,
)
    requires
        is_created_and_loaded(c, files, recovery_bytes, out, par2),
    ensures
        found_damage::checksums_fit(par2),
{
    lemma_loaded_files(c, files, recovery_bytes, out, par2);
    lemma_listed(files);
    let views = parser::file_views(files);
    let set = c.set(views);
    let order = file_order(files);
    let list = listed(files);
    let size = par2.block_size as int;
    assert forall|id: Seq<u8>| #[trigger] par2.slice_checksums@.dom().contains(id) implies (
    match repair_plan::range_of(list, size, id, list.len()) {
        Some((start, count)) => par2.slice_checksums@[id]@.len() <= count,
        None => true,
    }) by {
        assert(loader::checksum_map(par2.slice_checksums@).dom().contains(id));
        let k = lemma_table_ids(views, set.checksums, views.len(), id);
        sums::lemma_permutation_onto(order, files.len(), k);
        let f = choose|f: int| 0 <= f < files.len() && #[trigger] order[f] == k;
        assert(list[f] == views[k]);
        lemma_loaded_checksums(c, files, recovery_bytes, out, par2, f);
        assert(parser::file_views(par2.files_in_order@)[f] == par2.files_in_order@[f]@);
        restoration::lemma_range(list, size, f, list.len());
        assert(files[k]@ == creator::described(files[k].name@, c.input_files@[k].data@));
        assert(c.input_files@[k].data.len() == c.input_files@[k].data@.len());
        let data = c.input_files@[k].data@;
        assert(c.ordered(views)[f] == data);
        blocks::law_block_count(data.len() as int, size, 0);
        assert(views[k] == files[k]@);
        assert(views[k].length == data.len());
        let sums = par2.slice_checksums@[id]@;
        assert(parser::checksum_views(sums).len() == sums.len());
        assert(sums.len() == blocks::block_count(data.len() as int, size));
    }
}

/// The exponents of the recovery blocks count up from `first`.
pub open spec fn exponents_count_up(par2: Par2File, first: nat) -> bool {
    forall|i: int|
        0 <= i < par2.recovery_blocks@.len() ==> (#[trigger] par2.recovery_blocks@[i]).exponent
            == first + i
}

proof fn lemma_first_blocks_used(
    par2: Par2File,
    plan: RepairPlan,
    result: VerificationResult,
    first: nat,
)
    requires
        repair_plan::is_plan(plan, par2, result),
        repair_plan::are_numbered(par2, result),
        exponents_count_up(par2, first),
    ensures
        plan.recovery@.len() == plan.damaged@.len(),
        plan.damaged@.len() <= par2.recovery_blocks@.len(),
        forall|i: int| 0 <= i < plan.recovery@.len() ==> #[trigger] plan.recovery@[i] == i,
{
    repair_plan::lemma_plan(plan, par2, result);
    let blocks = parser::recovery_views(par2.recovery_blocks@);
    let keys = repair_plan::exponent_keys(blocks);
    let same = Seq::new(blocks.len(), |i: int| i);
    assert(sums::is_permutation(same, blocks.len()));
    assert forall|i: int, j: int| 0 <= i < j < keys.len() implies ordering::goes_before(
        keys,
        #[trigger] same[i],
        #[trigger] same[j],
    ) by {
        assert(par2.recovery_blocks@[i].exponent == first + i);
        assert(par2.recovery_blocks@[j].exponent == first + j);
        assert(blocks[i] == par2.recovery_blocks@[i]@);
        assert(blocks[j] == par2.recovery_blocks@[j]@);
    }
    assert(ordering::is_stable_order(keys, same));
    let m = plan.damaged@.len();
    let order = choose|order: Seq<int>|
        #[trigger] ordering::is_stable_order(keys, order) && m <= order.len() && solver::indices(
            plan.recovery@,
        ) == order.take(m as int);
    ordering::law_stable_order_unique(keys, same, order);
    let used = solver::indices(plan.recovery@);
    assert forall|i: int| 0 <= i < plan.recovery@.len() implies #[trigger] plan.recovery@[i]
        == i by {
        assert(used[i] == same[i]);
    }
}

/// The recovery blocks that a repair uses determine the damaged blocks.
pub open spec fn is_determined(par2: Par2File, result: VerificationResult) -> bool {
    forall|plan: RepairPlan| #[trigger]
        repair_plan::is_plan(plan, par2, result) ==> !elimination::singular(
            repair::damage_matrix(par2, plan),
            plan.damaged@.len(),
        )
}

proof fn lemma_distinct(par2: Par2File, plan: RepairPlan, result: VerificationResult)
    requires
        repair_plan::is_plan(plan, par2, result),
        no_repeats(repair_plan::blocks_to_restore(par2, result)),
    ensures
        restoration::distinct(plan.damaged@),
{
    let numbers = repair_plan::blocks_to_restore(par2, result);
    let listed = solver::indices(plan.damaged@);
    assert(listed.len() == plan.damaged@.len());
    assert forall|i: int, j: int| 0 <= i < j < plan.damaged@.len() implies
        #[trigger] plan.damaged@[i] != #[trigger] plan.damaged@[j] by {
        assert(numbers[i] != numbers[j]);
        assert(listed[i] == plan.damaged@[i]);
        assert(listed[j] == plan.damaged@[j]);
    }
}

/// With recovery blocks whose exponents count up, from any number on, and at most 32768 data blocks,
/// the damaged blocks are always determined.
pub proof fn law_damage_is_determined(par2: Par2File, result: VerificationResult, first: nat)
    requires
        repair_plan::are_numbered(par2, result),
        exponents_count_up(par2, first),
        no_repeats(repair_plan::blocks_to_restore(par2, result)),
        repair_plan::data_block_count(par2) <= constants::DISTINCT_CONSTANTS,
    ensures
        is_determined(par2, result),
{
    assert forall|plan: RepairPlan| #[trigger]
        repair_plan::is_plan(plan, par2, result) implies !elimination::singular(
        repair::damage_matrix(par2, plan),
        plan.damaged@.len(),
    ) by {
        lemma_first_blocks_used(par2, plan, result, first);
        lemma_distinct(par2, plan, result);
        repair_plan::lemma_plan(plan, par2, result);
        let m = plan.damaged@.len();
        constants::law_missing_blocks_can_be_restored(
            plan.total_blocks as nat,
            plan.damaged@,
            first,
        );
        let blocks = parser::recovery_views(par2.recovery_blocks@);
        let exponents = repair::exponents_of(repair::chosen(blocks, plan.recovery@));
        assert forall|r: int| 0 <= r < m implies #[trigger] exponents[r] == (first + r) as nat by {
            assert(plan.recovery@[r] == r);
            assert(blocks[r] == par2.recovery_blocks@[r]@);
            assert(par2.recovery_blocks@[r].exponent == first + r);
        }
        assert(exponents =~= Seq::new(m, |r: int| (first + r) as nat));
    }
}

/// No number is listed twice.
pub open spec fn no_repeats(numbers: Seq<int>) -> bool {
    forall|i: int, j: int|
        0 <= i < j < numbers.len() ==> #[trigger] numbers[i] != #[trigger] numbers[j]
}

/// Every block that is not to be restored is, as it is read, what it was.
pub open spec fn rest_is_unchanged(
    par2: Par2File,
    result: VerificationResult,
    inputs: Map<Seq<u8>, Vec<u8>>,
    data: Seq<Seq<u8>>,
) -> bool {
    forall|b: int|
        0 <= b < data.len() && !repair_plan::blocks_to_restore(par2, result).contains(b)
            ==> #[trigger] repair::data_source(
            parser::file_views(par2.files_in_order@),
            par2.block_size as int,
            inputs,
            b,
        ) == Source::Bytes(data[b])
}

/// The recovery blocks of the set are those of the data.
pub open spec fn recovery_is_of(
    par2: Par2File,
    stores: Seq<StoredFile>,
    data: Seq<Seq<u8>>,
) -> bool {
    forall|i: int|
        0 <= i < par2.recovery_blocks@.len() ==> repair::recovery_contents(
            (#[trigger] par2.recovery_blocks@[i])@,
            stores,
            par2.block_size as nat,
        ) == Some(
            creator::recovery_data(
                data,
                par2.block_size as nat,
                par2.recovery_blocks@[i].exponent as nat,
            ),
        )
}

proof fn lemma_is_faithful(
    repair: Repair,
    par2: Par2File,
    result: VerificationResult,
    plan: RepairPlan,
    inputs: Map<Seq<u8>, Vec<u8>>,
    stores: Seq<StoredFile>,
    data: Seq<Seq<u8>>,
)
    requires
        repair_plan::is_plan(plan, par2, result),
        repair_plan::are_numbered(par2, result),
        repair.is_for(par2, plan),
        data.len() == plan.total_blocks,
        recovery_is_of(par2, stores, data),
        rest_is_unchanged(par2, result, inputs, data),
    ensures
        restoration::is_faithful(repair, par2, inputs, stores, data),
{
    repair_plan::lemma_plan(plan, par2, result);
    let size = repair.block_size as nat;
    let blocks = parser::recovery_views(par2.recovery_blocks@);
    let used = parser::recovery_views(repair.recovery@);
    assert(used.len() == repair.recovery@.len());
    assert forall|r: int| 0 <= r < repair.recovery@.len() implies
        #[trigger] repair.recovery_sources(stores)[r] == Source::Bytes(
        creator::recovery_data(data, size, repair.recovery@[r].exponent as nat),
    ) by {
        assert(used[r] == repair.recovery@[r]@);
        let i = plan.recovery@[r] as int;
        assert(used[r] == blocks[i]);
        assert(blocks[i] == par2.recovery_blocks@[i]@);
    }
    restoration::lemma_good_blocks(plan.damaged@, data.len());
    let numbers = repair_plan::blocks_to_restore(par2, result);
    assert forall|c: int| 0 <= c < repair.good@.len() implies
        #[trigger] repair.data_sources(par2, inputs)[c] == Source::Bytes(
        data[repair.good@[c] as int],
    ) by {
        let b = repair.good@[c];
        assert(restoration::good(plan.damaged@, data.len())[c] == b);
        assert(!numbers.contains(b as int)) by {
            if numbers.contains(b as int) {
                let k = choose|k: int| 0 <= k < numbers.len() && numbers[k] == b as int;
                assert(solver::indices(plan.damaged@)[k] == plan.damaged@[k] as int);
                assert(plan.damaged@[k] == b);
                assert(plan.damaged@.contains(b));
            }
        }
        assert(repair::data_source(
            parser::file_views(par2.files_in_order@),
            par2.block_size as int,
            inputs,
            b as int,
        ) == Source::Bytes(data[b as int]));
    }
}

/// Every repaired file is as it was, and every file that had to be repaired is there.
pub open spec fn are_as_before(
    out: Seq<RepairedFile>,
    par2: Par2File,
    result: VerificationResult,
    truth: Seq<Seq<u8>>,
) -> bool {
    &&& forall|i: int, f: int|
        0 <= i < out.len() && 0 <= f < truth.len() && (#[trigger] out[i]).file_id@ == (
        #[trigger] par2.files_in_order@[f]).file_id@ ==> out[i].data@ == truth[f]
    &&& forall|f: int|
        0 <= f < truth.len() && repair::is_wanted(
            par2,
            result,
            (#[trigger] par2.files_in_order@[f]).file_id@,
        ) ==> exists|i: int|
            0 <= i < out.len() && (#[trigger] out[i]).file_id@
                == par2.files_in_order@[f].file_id@
}

/// Repair gives back lost files: if a set describes the files whose contents were `truth`, its recovery
/// blocks are theirs, there are enough of them and they determine the damaged blocks, and every block
/// that is not to be restored is unchanged, then repair succeeds, and every file that was damaged or
/// missing has its old contents.
pub proof fn law_repair_gives_back_lost_files(
    r: Result<Vec<RepairedFile>>,
    par2: Par2File,
    result: VerificationResult,
    inputs: Map<Seq<u8>, Vec<u8>>,
    stores: Seq<StoredFile>,
    unreadable: Seq<char>,
    truth: Seq<Seq<u8>>,
)
    requires
        repair::is_repair(r, par2, result, inputs, stores, false, unreadable),
        repair::can_begin(par2, result),
        repair::damaged_are_there(par2, result, inputs),
        repair_plan::are_numbered(par2, result),
        no_repeats(repair_plan::blocks_to_restore(par2, result)),
        restoration::is_set_of(par2, truth),
        restoration::has_checksums_of(par2, truth),
        is_determined(par2, result),
        recovery_is_of(par2, stores, blocks::all_blocks(truth, par2.block_size as nat)),
        rest_is_unchanged(
            par2,
            result,
            inputs,
            blocks::all_blocks(truth, par2.block_size as nat),
        ),
    ensures
        r is Ok,
        are_as_before(r->Ok_0@, par2, result, truth),
{
    let data = blocks::all_blocks(truth, par2.block_size as nat);
    assert(repair::is_begun(r, par2, result, inputs, stores, unreadable));
    let plan = choose|plan: RepairPlan|
        #[trigger] repair_plan::is_plan(plan, par2, result) && (if elimination::singular(
            repair::damage_matrix(par2, plan),
            plan.damaged@.len(),
        ) {
            r matches Err(Par2Error::RepairFailed(m)) && m@ == "Failed to compute transformation: "@
                + "Singular matrix"@
        } else {
            exists|repair: Repair|
                #[trigger] repair.is_for(par2, plan) && repair.unreadable@ == unreadable
                    && repair::is_outcome(
                    r,
                    repair,
                    par2,
                    result,
                    inputs,
                    stores,
                )
        });
    lemma_distinct(par2, plan, result);
    let repair = choose|repair: Repair|
        #[trigger] repair.is_for(par2, plan) && repair.unreadable@ == unreadable
                    && repair::is_outcome(
            r,
            repair,
            par2,
            result,
            inputs,
            stores,
        );
    restoration::lemma_block_total(par2, truth);
    lemma_is_faithful(repair, par2, result, plan, inputs, stores, data);
    restoration::law_repair_succeeds(r, repair, par2, result, plan, inputs, stores, truth);
}

/// If no block has to be restored and no file is damaged, the missing files are empty, and repair
/// gives them back.
pub proof fn law_repair_gives_back_empty_files(
    r: Result<Vec<RepairedFile>>,
    par2: Par2File,
    result: VerificationResult,
    inputs: Map<Seq<u8>, Vec<u8>>,
    stores: Seq<StoredFile>,
    cancelled: bool,
    unreadable: Seq<char>,
    truth: Seq<Seq<u8>>,
)
    requires
        repair::is_repair(r, par2, result, inputs, stores, cancelled, unreadable),
        repair_plan::set_error(par2) is None,
        repair_plan::blocks_to_restore(par2, result).len() == 0,
        result.damaged_files@.len() == 0,
        restoration::is_set_of(par2, truth),
        restoration::has_checksums_of(par2, truth),
    ensures
        r is Ok,
        are_as_before(r->Ok_0@, par2, result, truth),
{
    let files = parser::file_views(par2.files_in_order@);
    let size = par2.block_size as int;
    assert forall|f: int|
        0 <= f < truth.len() && repair::is_wanted(
            par2,
            result,
            (#[trigger] par2.files_in_order@[f]).file_id@,
        ) implies repair::repaired_contents(
        par2,
        result,
        inputs,
        seq![],
        seq![],
        par2.files_in_order@[f].file_id@,
    ) == truth[f] by {
        let id = files[f].file_id;
        assert(id == par2.files_in_order@[f].file_id@);
        assert(files[f].length == truth[f].len());
        restoration::lemma_range(files, size, f, files.len());
        let ids = parser::id_views(result.missing_files@);
        let count = blocks::block_count(files[f].length as int, size);
        assert(!parser::id_views(result.damaged_files@).contains(id));
        if truth[f].len() > 0 {
            blocks::law_block_count(truth[f].len() as int, size, 0);
            restoration::lemma_missing_listed(files, size, ids, id, 0);
            let first = repair_plan::missing_blocks(files, size, ids);
            let start = creator::total_blocks(creator::lengths_of(files).take(f), size);
            let p = choose|p: int| 0 <= p < first.len() && first[p] == start;
            assert(repair_plan::blocks_to_restore(par2, result)[p] == start);
        }
        assert(par2.files@[files[f].file_id]@ == files[f]);
        assert(par2.files@[id].length == 0);
        let got = repair::repaired_contents(par2, result, inputs, seq![], seq![], id);
        assert(got.len() == 0);
        assert(got =~= truth[f]);
    }
    assert forall|id: Seq<u8>| #[trigger] repair::is_wanted(par2, result, id) implies repair::passes(
        par2,
        id,
        repair::repaired_contents(par2, result, inputs, seq![], seq![], id),
    ) by {
        assert(par2.files@.dom().contains(id));
        let f = choose|f: int| 0 <= f < files.len() && (#[trigger] files[f]).file_id == id;
        assert(par2.files_in_order@[f].file_id@ == id);
    }
    assert(repair::all_pass(par2, result, inputs, seq![], seq![]));
    assert forall|i: int, f: int|
        0 <= i < r->Ok_0@.len() && 0 <= f < truth.len() && (#[trigger] r->Ok_0@[i]).file_id@ == (
        #[trigger] par2.files_in_order@[f]).file_id@ implies r->Ok_0@[i].data@ == truth[f] by {
        assert(repair::is_wanted(par2, result, r->Ok_0@[i].file_id@));
    }
}

/// A set that was created and loaded gives back the files that it was created from: whatever damage
/// verification finds, if every other block is unchanged, there are enough recovery blocks and at most
/// 32768 data blocks, repair succeeds, and every file that was damaged or missing has its old contents.
pub proof fn law_created_sets_give_back_files(
    c: Par2Creator,
    files: Seq<FileInfo>,
    recovery_bytes: u64,
    out: Seq<StoredFile>,
    par2: Par2File,
    named: Map<Seq<u8>, StoredFile>,
    extra: Seq<StoredFile>,
    result: VerificationResult,
    inputs: Map<Seq<u8>, Vec<u8>>,
    unreadable: Seq<char>,
    r: Result<Vec<RepairedFile>>,
)
    requires
        is_created_and_loaded(c, files, recovery_bytes, out, par2),
        paths::is_simple(out[0].path@) || paths_differ(out),
        c.recovery(parser::file_views(files), recovery_bytes).len() <= u32::MAX,
        par2.files.wf(),
        verify::is_result(result, verify::case_of(par2, named, extra)),
        repair::can_begin(par2, result),
        repair::damaged_are_there(par2, result, inputs),
        repair_plan::data_block_count(par2) <= constants::DISTINCT_CONSTANTS,
        rest_is_unchanged(
            par2,
            result,
            inputs,
            blocks::all_blocks(c.ordered(parser::file_views(files)), par2.block_size as nat),
        ),
        repair::is_repair(r, par2, result, inputs, out, false, unreadable),
    ensures
        r is Ok,
        are_as_before(r->Ok_0@, par2, result, c.ordered(parser::file_views(files))),
{
    law_created_sets_can_repair(c, files, recovery_bytes, out, par2);
    law_created_checksums_fit(c, files, recovery_bytes, out, par2);
    found_damage::law_found_damage_can_be_repaired(par2, result, named, extra);
    law_damage_is_determined(par2, result, 0);
    law_repair_gives_back_lost_files(
        r,
        par2,
        result,
        inputs,
        out,
        unreadable,
        c.ordered(parser::file_views(files)),
    );
}

/// A set that was created and loaded is valid, so that repair can begin with it.
pub proof fn law_created_sets_are_valid(
    c: Par2Creator,
    files: Seq<FileInfo>,
    recovery_bytes: u64,
    out: Seq<StoredFile>,
    par2: Par2File,
)
    requires
        is_created_and_loaded(c, files, recovery_bytes, out, par2),
        paths::is_simple(out[0].path@) || paths_differ(out),
        creator::plan_error(
            creator::input_lengths(c.input_files@),
            c.size(),
            recovery_bytes as int,
        ) is None,
    ensures
        repair_plan::set_error(par2) is None,
        par2.recovery_blocks@.len() == c.recovery(parser::file_views(files), recovery_bytes).len(),
{
    let views = parser::file_views(files);
    let lengths = creator::input_lengths(c.input_files@);
    let size = par2.block_size as int;
    lemma_loaded_files(c, files, recovery_bytes, out, par2);
    let starts = limits::lemma_count(lengths, size);
    let recovery = blocks::block_count(recovery_bytes as int, size);
    limits::law_count_is_least(recovery, recovery_bytes as int, size);
    limits::law_files_can_be_protected(lengths, size, starts, recovery_bytes as int, recovery);
    law_created_sets_can_repair(c, files, recovery_bytes, out, par2);
    creator::lemma_total_is_all_blocks(c.input_files@, file_order(files), size as nat);
    restoration::lemma_block_total(par2, c.ordered(views));
    let listed = creator::lengths_of(parser::file_views(par2.files_in_order@));
    let own = limits::lemma_count(listed, size);
    limits::law_sets_are_accepted(par2, own);
}

/// A set that was created and loaded gives back the files that it was created from, as long as no more
/// blocks have to be restored than there are recovery blocks: if every other block is unchanged, and
/// there are at most 32768 data blocks, repair succeeds, and every file that was damaged or missing has
/// its old contents.
pub proof fn law_created_sets_restore_as_many_blocks_as_they_have(
    c: Par2Creator,
    files: Seq<FileInfo>,
    recovery_bytes: u64,
    out: Seq<StoredFile>,
    par2: Par2File,
    named: Map<Seq<u8>, StoredFile>,
    extra: Seq<StoredFile>,
    result: VerificationResult,
    inputs: Map<Seq<u8>, Vec<u8>>,
    unreadable: Seq<char>,
    r: Result<Vec<RepairedFile>>,
)
    requires
        is_created_and_loaded(c, files, recovery_bytes, out, par2),
        paths::is_simple(out[0].path@) || paths_differ(out),
        creator::plan_error(
            creator::input_lengths(c.input_files@),
            c.size(),
            recovery_bytes as int,
        ) is None,
        par2.files.wf(),
        verify::is_result(result, verify::case_of(par2, named, extra)),
        0 < repair_plan::blocks_to_restore(par2, result).len(),
        repair_plan::blocks_to_restore(par2, result).len() <= c.recovery(
            parser::file_views(files),
            recovery_bytes,
        ).len(),
        forall|k: int|
            0 <= k < result.damaged_files@.len() ==> inputs.dom().contains(
                (#[trigger] result.damaged_files@[k])@,
            ),
        blocks::all_blocks(c.ordered(parser::file_views(files)), par2.block_size as nat).len()
            <= 32768,
        rest_is_unchanged(
            par2,
            result,
            inputs,
            blocks::all_blocks(c.ordered(parser::file_views(files)), par2.block_size as nat),
        ),
        repair::is_repair(r, par2, result, inputs, out, false, unreadable),
    ensures
        r is Ok,
        are_as_before(r->Ok_0@, par2, result, c.ordered(parser::file_views(files))),
{
    let views = parser::file_views(files);
    law_created_sets_are_valid(c, files, recovery_bytes, out, par2);
    law_created_sets_can_repair(c, files, recovery_bytes, out, par2);
    restoration::lemma_block_total(par2, c.ordered(views));
    law_created_sets_give_back_files(
        c,
        files,
        recovery_bytes,
        out,
        par2,
        named,
        extra,
        result,
        inputs,
        unreadable,
        r,
    );
}

} // verus!
