//! A set that was created can be loaded.

use vstd::prelude::*;

use crate::creator;
use crate::creator::{Par2Creator, SetView};
use crate::galois::sums;
use crate::loader;
use crate::loader::{Par2File, StoredFile};
use crate::ordering;
use crate::packets;
use crate::parser;
use crate::parser::{ChecksumView, FileInfo, FileView, PacketType, RecoveryView};
use crate::reading_back;
use crate::restoration;
use crate::volumes;
use crate::volumes::VolumeScheme;
use crate::writer;

verus! {

/// The recovery blocks that are found in a volume from `p` on.
#[verifier::opaque]
spec fn found(data: Seq<u8>, p: int, block_size: u64, path: Seq<char>) -> Seq<RecoveryView> {
    parser::volume_blocks(data, p, block_size, path)
}

proof fn lemma_found_packet(
    before: Seq<u8>,
    kind: Seq<u8>,
    set_id: Seq<u8>,
    body: Seq<u8>,
    after: Seq<u8>,
    block_size: u64,
    path: Seq<char>,
)
    requires
        kind.len() == 16,
        set_id.len() == 16,
        packets::packet(kind, set_id, body).len() <= u64::MAX,
    ensures
        ({
            let data = before + packets::packet(kind, set_id, body) + after;
            let p = before.len() as int;
            let next = p + packets::packet(kind, set_id, body).len();
            &&& parser::packet_type(kind) != PacketType::RecoverySlice ==> found(
                data,
                p,
                block_size,
                path,
            ) == found(data, next, block_size, path)
            &&& parser::packet_type(kind) == PacketType::RecoverySlice && packets::padded(
                body,
            ).len() >= 4 ==> found(data, p, block_size, path) == seq![
                parser::recovery_at(data, p, block_size, path),
            ] + found(data, next, block_size, path)
        }),
{
    reveal(found);
    reading_back::lemma_packet_len(kind, set_id, body);
    packets::law_packet_reads_back(before, kind, set_id, body, after);
}

proof fn lemma_found_descriptions(
    before: Seq<u8>,
    set_id: Seq<u8>,
    files: Seq<FileView>,
    after: Seq<u8>,
    block_size: u64,
    path: Seq<char>,
)
    requires
        set_id.len() == 16,
        creator::description_packets(set_id, files).len() <= u64::MAX,
    ensures
        ({
            let all = creator::description_packets(set_id, files);
            let data = before + all + after;
            found(data, before.len() as int, block_size, path) == found(
                data,
                (before.len() + all.len()) as int,
                block_size,
                path,
            )
        }),
    decreases files.len(),
{
    if files.len() > 0 {
        let rest = files.drop_last();
        let body = writer::file_desc_body(files.last());
        let packet = packets::packet(packets::FILE_DESC@, set_id, body);
        let part = creator::description_packets(set_id, rest);
        reading_back::lemma_regroup(before, part, packet, after);
        reading_back::lemma_kinds_differ();
        lemma_found_descriptions(before, set_id, rest, packet + after, block_size, path);
        lemma_found_packet(
            before + part,
            packets::FILE_DESC@,
            set_id,
            body,
            after,
            block_size,
            path,
        );
    }
}

proof fn lemma_found_checksums(
    before: Seq<u8>,
    set_id: Seq<u8>,
    files: Seq<FileView>,
    table: Map<Seq<u8>, Seq<ChecksumView>>,
    after: Seq<u8>,
    block_size: u64,
    path: Seq<char>,
)
    requires
        set_id.len() == 16,
        creator::checksum_packets(set_id, files, table).len() <= u64::MAX,
    ensures
        ({
            let all = creator::checksum_packets(set_id, files, table);
            let data = before + all + after;
            found(data, before.len() as int, block_size, path) == found(
                data,
                (before.len() + all.len()) as int,
                block_size,
                path,
            )
        }),
    decreases files.len(),
{
    if files.len() > 0 {
        let rest = files.drop_last();
        let id = files.last().file_id;
        let body = writer::ifsc_body(id, table[id]);
        let packet = packets::packet(packets::IFSC@, set_id, body);
        let part = creator::checksum_packets(set_id, rest, table);
        reading_back::lemma_regroup(before, part, packet, after);
        reading_back::lemma_kinds_differ();
        lemma_found_checksums(before, set_id, rest, table, packet + after, block_size, path);
        lemma_found_packet(before + part, packets::IFSC@, set_id, body, after, block_size, path);
    }
}

proof fn lemma_found_recovery(
    before: Seq<u8>,
    set_id: Seq<u8>,
    blocks: Seq<(u32, Seq<u8>)>,
    after: Seq<u8>,
    block_size: u64,
    path: Seq<char>,
) -> (list: Seq<RecoveryView>)
    requires
        set_id.len() == 16,
        (before + creator::recovery_packets(set_id, blocks) + after).len() <= u64::MAX,
    ensures
        ({
            let all = creator::recovery_packets(set_id, blocks);
            let data = before + all + after;
            &&& reading_back::are_written(list, data, blocks, block_size, path)
            &&& found(data, before.len() as int, block_size, path) == list + found(
                data,
                (before.len() + all.len()) as int,
                block_size,
                path,
            )
        }),
    decreases blocks.len(),
{
    let all = creator::recovery_packets(set_id, blocks);
    let data = before + all + after;
    if blocks.len() == 0 {
        let list: Seq<RecoveryView> = seq![];
        let end = found(data, before.len() as int, block_size, path);
        assert(list + end =~= end);
        list
    } else {
        let rest = blocks.drop_last();
        let block = blocks.last();
        let body = writer::recovery_body(block.0, block.1);
        let packet = packets::packet(packets::RECV_SLICE@, set_id, body);
        let part = creator::recovery_packets(set_id, rest);
        reading_back::lemma_regroup(before, part, packet, after);
        reading_back::lemma_kinds_differ();
        let list = lemma_found_recovery(before, set_id, rest, packet + after, block_size, path);
        let p = (before + part).len() as int;
        let here = parser::recovery_at(data, p, block_size, path);
        reading_back::lemma_recovery_written(
            before + part,
            set_id,
            block,
            after,
            block_size,
            path,
        );
        lemma_found_packet(
            before + part,
            packets::RECV_SLICE@,
            set_id,
            body,
            after,
            block_size,
            path,
        );
        let end = found(data, (before.len() + all.len()) as int, block_size, path);
        assert(list + (seq![here] + end) =~= list.push(here) + end);
        assert forall|i: int| 0 <= i < blocks.len() implies reading_back::is_written(
            #[trigger] list.push(here)[i],
            data,
            blocks[i],
            block_size,
            path,
        ) by {
            if i < rest.len() {
                assert(reading_back::is_written(list[i], data, rest[i], block_size, path));
            }
        }
        list.push(here)
    }
}

/// The recovery blocks of a volume read back, with their data, and the volume is known as one of
/// the set.
pub proof fn law_volume_blocks_read_back(
    set: SetView,
    blocks: Seq<(u32, Seq<u8>)>,
    block_size: u64,
    path: Seq<char>,
)
    requires
        creator::volume_bytes(set, blocks).len() <= u64::MAX,
    ensures
        ({
            let data = creator::volume_bytes(set, blocks);
            &&& loader::belongs(data, set.set_id())
            &&& reading_back::are_written(
                parser::volume_blocks(data, 0, block_size, path),
                data,
                blocks,
                block_size,
                path,
            )
        }),
{
    let id = set.set_id();
    let name = writer::utf8(creator::creator_name());
    let c = packets::packet(packets::CREATOR@, id, name);
    let m = packets::packet(packets::MAIN@, id, set.main_packet());
    let d = creator::description_packets(id, set.files);
    let k = creator::checksum_packets(id, set.files, set.table());
    let r = creator::recovery_packets(id, blocks);
    let data = creator::volume_bytes(set, blocks);
    let none = Seq::<u8>::empty();
    reading_back::lemma_regroup_five(c, m, d, k, r);
    reading_back::lemma_kinds_differ();
    reading_back::lemma_packet_len(packets::CREATOR@, id, name);
    packets::law_packet_reads_back(none, packets::CREATOR@, id, name, m + d + k + r);
    assert(loader::belongs(data, id));
    lemma_found_packet(none, packets::CREATOR@, id, name, m + d + k + r, block_size, path);
    lemma_found_packet(c, packets::MAIN@, id, set.main_packet(), d + k + r, block_size, path);
    lemma_found_descriptions(c + m, id, set.files, k + r, block_size, path);
    lemma_found_checksums(c + m + d, id, set.files, set.table(), r, block_size, path);
    let list = lemma_found_recovery(c + m + d + k, id, blocks, none, block_size, path);
    let end = found(data, data.len() as int, block_size, path);
    reveal(found);
    assert(end =~= seq![]);
    assert(list + end =~= list);
}

/// Lists of blocks, one after the other.
pub open spec fn joined(parts: Seq<Seq<(u32, Seq<u8>)>>) -> Seq<(u32, Seq<u8>)>
    decreases parts.len(),
{
    if parts.len() == 0 {
        seq![]
    } else {
        parts[0] + joined(parts.skip(1))
    }
}

proof fn lemma_joined_last(parts: Seq<Seq<(u32, Seq<u8>)>>)
    requires
        parts.len() > 0,
    ensures
        joined(parts) == joined(parts.drop_last()) + parts.last(),
    decreases parts.len(),
{
    let rest = parts.skip(1);
    if rest.len() == 0 {
        assert(joined(rest) =~= seq![]);
        assert(joined(parts.drop_last()) =~= seq![]);
        assert(joined(parts) =~= parts.last());
        assert(joined(parts.drop_last()) + parts.last() =~= parts.last());
    } else {
        lemma_joined_last(rest);
        assert(parts.drop_last().skip(1) =~= rest.drop_last());
        assert(parts[0] + (joined(rest.drop_last()) + parts.last()) =~= (parts[0] + joined(
            rest.drop_last(),
        )) + parts.last());
    }
}

proof fn lemma_joined_planned(planned: Seq<volumes::VolumeView>)
    ensures
        joined(
            Seq::new(planned.len(), |i: int| creator::block_data(planned[i].recovery_blocks)),
        ) == creator::block_data(volumes::joined_blocks(planned)),
    decreases planned.len(),
{
    let parts = Seq::new(
        planned.len(),
        |i: int| creator::block_data(planned[i].recovery_blocks),
    );
    if planned.len() == 0 {
        assert(creator::block_data(volumes::joined_blocks(planned)) =~= seq![]);
    } else {
        let rest = planned.skip(1);
        lemma_joined_planned(rest);
        assert(parts.skip(1) =~= Seq::new(
            rest.len(),
            |i: int| creator::block_data(rest[i].recovery_blocks),
        ));
        assert(creator::block_data(volumes::joined_blocks(planned)) =~= creator::block_data(
            planned[0].recovery_blocks,
        ) + creator::block_data(volumes::joined_blocks(rest)));
    }
}

proof fn lemma_parts_hold_all(recovery: Seq<(u32, Seq<u8>)>, scheme: VolumeScheme)
    ensures
        joined(creator::volume_parts(recovery, scheme)) == recovery,
{
    let planned = volumes::planned_volumes(recovery, scheme, seq![]);
    let parts = Seq::new(
        planned.len(),
        |i: int| creator::block_data(planned[i].recovery_blocks),
    );
    volumes::law_volumes_hold_all_blocks(recovery, scheme, seq![]);
    lemma_joined_planned(planned);
    assert(creator::block_data(volumes::all_in_memory(recovery)) =~= recovery);
    assert(joined(parts) == recovery);
    let all = creator::volume_parts(recovery, scheme);
    if scheme == VolumeScheme::Exponential {
        assert(all.skip(1) =~= parts);
        assert(all[0] + joined(parts) =~= joined(parts));
    }
}

/// The block is written in one of the files.
pub open spec fn is_found_in(
    block: RecoveryView,
    files: Seq<StoredFile>,
    written: (u32, Seq<u8>),
    block_size: u64,
) -> bool {
    exists|v: int|
        0 <= v < files.len() && reading_back::is_written(
            block,
            (#[trigger] files[v]).data@,
            written,
            block_size,
            files[v].path@,
        )
}

/// The blocks are those that were written, in their order, each in one of the files.
pub open spec fn are_found_in(
    blocks: Seq<RecoveryView>,
    files: Seq<StoredFile>,
    written: Seq<(u32, Seq<u8>)>,
    block_size: u64,
) -> bool {
    &&& blocks.len() == written.len()
    &&& forall|i: int|
        0 <= i < written.len() ==> is_found_in(#[trigger] blocks[i], files, written[i], block_size)
}

/// All volumes are files of the set.
spec fn are_volumes(
    files: Seq<StoredFile>,
    set: SetView,
    parts: Seq<Seq<(u32, Seq<u8>)>>,
) -> bool {
    &&& files.len() == parts.len()
    &&& forall|i: int|
        0 <= i < files.len() ==> (#[trigger] files[i]).data@ == creator::volume_bytes(set, parts[i])
}

proof fn lemma_volumes_found(
    files: Seq<StoredFile>,
    set: SetView,
    parts: Seq<Seq<(u32, Seq<u8>)>>,
    block_size: u64,
    n: nat,
)
    requires
        are_volumes(files, set, parts),
        n <= files.len(),
    ensures
        are_found_in(
            loader::volumes_blocks(files, set.set_id(), block_size, n),
            files,
            joined(parts.take(n as int)),
            block_size,
        ),
    decreases n,
{
    let all = loader::volumes_blocks(files, set.set_id(), block_size, n);
    let want = joined(parts.take(n as int));
    if n > 0 {
        let before = loader::volumes_blocks(files, set.set_id(), block_size, (n - 1) as nat);
        lemma_volumes_found(files, set, parts, block_size, (n - 1) as nat);
        lemma_joined_last(parts.take(n as int));
        assert(parts.take(n as int).drop_last() =~= parts.take(n - 1));
        let file = files[n - 1];
        assert(file.data.len() == file.data@.len());
        law_volume_blocks_read_back(set, parts[n - 1], block_size, file.path@);
        let here = parser::volume_blocks(file.data@, 0, block_size, file.path@);
        let first = joined(parts.take(n - 1));
        assert(all == before + here);
        assert forall|i: int| 0 <= i < want.len() implies is_found_in(
            #[trigger] all[i],
            files,
            want[i],
            block_size,
        ) by {
            if i < first.len() {
                assert(is_found_in(before[i], files, first[i], block_size));
            } else {
                assert(reading_back::is_written(
                    here[i - first.len()],
                    files[n - 1].data@,
                    parts[n - 1][i - first.len()],
                    block_size,
                    files[n - 1].path@,
                ));
            }
        }
    }
}

/// A set that was created is accepted when its first file is loaded, unless its ID is zero.
pub proof fn law_created_set_is_accepted(
    out: Seq<StoredFile>,
    set: SetView,
    recovery: Seq<(u32, Seq<u8>)>,
    scheme: VolumeScheme,
)
    requires
        creator::is_created(out, set, recovery, scheme, out[0].path@),
        reading_back::is_readable(set),
        set.block_size % 4 == 0,
        set.block_size <= usize::MAX,
        set.set_id() != loader::zero_id(),
    ensures
        loader::load_error(
            out[0].data@,
            loader::scan(out[0].data@, 0, out[0].path@, loader::nothing()),
        ) is None,
{
    let parts = creator::volume_parts(recovery, scheme);
    assert(out[0].data.len() == out[0].data@.len());
    reading_back::law_volume_reads_back(set, parts[0], out[0].path@);
    law_volume_blocks_read_back(set, parts[0], set.block_size, out[0].path@);
}

/// A set that was created loads as it was written: with its block size, its files, their checksums,
/// the files in the order of their sorted IDs, and all recovery blocks with their data.
pub proof fn law_created_set_loads(
    out: Seq<StoredFile>,
    set: SetView,
    recovery: Seq<(u32, Seq<u8>)>,
    scheme: VolumeScheme,
    par2: Par2File,
)
    requires
        creator::is_created(out, set, recovery, scheme, out[0].path@),
        reading_back::is_readable(set),
        loader::is_loaded(
            par2,
            out[0].data@,
            out[0].path@,
            out.skip(1),
            loader::scan(out[0].data@, 0, out[0].path@, loader::nothing()),
        ),
    ensures
        par2.block_size == set.block_size,
        loader::file_map(par2.files@) == reading_back::with_files(Map::empty(), set.files),
        loader::checksum_map(par2.slice_checksums@) == set.table(),
        loader::is_canonical(
            writer::sorted_ids(set.ids()),
            set.files,
            parser::file_views(par2.files_in_order@),
        ),
        are_found_in(
            parser::recovery_views(par2.recovery_blocks@),
            out,
            recovery,
            set.block_size,
        ),
{
    let parts = creator::volume_parts(recovery, scheme);
    let data = out[0].data@;
    let path = out[0].path@;
    let size = set.block_size;
    assert(out[0].data.len() == data.len());
    reading_back::law_volume_reads_back(set, parts[0], path);
    let st = loader::scan(data, 0, path, loader::nothing());
    let rest = out.skip(1);
    let later = parts.skip(1);
    assert forall|i: int| 0 <= i < rest.len() implies (#[trigger] rest[i]).data@
        == creator::volume_bytes(set, later[i]) by {
        assert(rest[i] == out[i + 1]);
    }
    lemma_volumes_found(rest, set, later, size, rest.len());
    assert(later.take(rest.len() as int) =~= later);
    lemma_parts_hold_all(recovery, scheme);
    let blocks = parser::recovery_views(par2.recovery_blocks@);
    let others = loader::volumes_blocks(rest, set.set_id(), size, rest.len());
    assert(loader::deferred_blocks(data, st.deferred, size, path) =~= seq![]);
    assert(blocks =~= st.recovery + others);
    assert forall|i: int| 0 <= i < recovery.len() implies is_found_in(
        #[trigger] blocks[i],
        out,
        recovery[i],
        size,
    ) by {
        if i < parts[0].len() {
            assert(reading_back::is_written(st.recovery[i], data, parts[0][i], size, path));
            assert(recovery[i] == parts[0][i]);
        } else {
            let k = i - parts[0].len();
            assert(recovery[i] == joined(later)[k]);
            assert(is_found_in(others[k], rest, joined(later)[k], size));
            let v = choose|v: int|
                0 <= v < rest.len() && reading_back::is_written(
                    others[k],
                    (#[trigger] rest[v]).data@,
                    joined(later)[k],
                    size,
                    rest[v].path@,
                );
            assert(rest[v] == out[v + 1]);
        }
    }
}

proof fn lemma_rank_of_distinct(ids: Seq<Seq<u8>>, i: int, n: nat)
    requires
        0 <= i < n <= ids.len(),
        n <= u64::MAX,
        forall|a: int, b: int| 0 <= a < b < ids.len() ==> #[trigger] ids[a] != #[trigger] ids[b],
    ensures
        loader::rank(ids, ids[i], n) == i,
    decreases n,
{
    if i < n - 1 {
        assert(ids[i] != ids[n - 1]);
        lemma_rank_of_distinct(ids, i, (n - 1) as nat);
    }
}

/// Files are brought into the order of their IDs, if these differ.
pub proof fn law_files_are_listed_by_their_ids(files: Seq<FileView>, out: Seq<FileView>)
    requires
        files.len() <= u64::MAX,
        restoration::ids_differ(files),
        loader::is_canonical(writer::sorted_ids(creator::ids_of(files)), files, out),
    ensures
        sums::is_permutation(writer::id_order(creator::ids_of(files)), files.len()),
        out == ordering::arranged(files, writer::id_order(creator::ids_of(files))),
{
    let ids = creator::ids_of(files);
    let order = writer::id_order(ids);
    let sorted = writer::sorted_ids(ids);
    ordering::law_stable_order_exists(writer::id_keys(ids));
    assert(ordering::is_stable_order(writer::id_keys(ids), order));
    assert forall|a: int, b: int| 0 <= a < b < sorted.len() implies #[trigger] sorted[a]
        != #[trigger] sorted[b] by {
        assert(order[a] != order[b]);
        if order[a] < order[b] {
            assert(files[order[a]].file_id != files[order[b]].file_id);
        } else {
            assert(files[order[b]].file_id != files[order[a]].file_id);
        }
    }
    let keys = loader::file_keys(sorted, files);
    assert forall|i: int, j: int| 0 <= i < j < files.len() implies ordering::goes_before(
        keys,
        #[trigger] order[i],
        #[trigger] order[j],
    ) by {
        lemma_rank_of_distinct(sorted, i, sorted.len());
        lemma_rank_of_distinct(sorted, j, sorted.len());
        assert(sorted[i] == files[order[i]].file_id);
        assert(sorted[j] == files[order[j]].file_id);
        assert(keys[order[i]].0 == i);
        assert(keys[order[j]].0 == j);
    }
    assert(ordering::is_stable_order(keys, order));
    let listed = ordering::arranged(files, order);
    assert(listed =~= Seq::new(files.len(), |i: int| files[order[i]]));
    assert(loader::is_canonical(sorted, files, listed));
    loader::law_canonical_unique(sorted, files, listed, out);
}

/// What a creator writes can be read, if the names of the files hold no zero character.
pub proof fn law_created_sets_are_readable(c: Par2Creator, files: Seq<FileInfo>)
    requires
        creator::describes(files, c.input_files@),
        files.len() <= u32::MAX,
        0 < c.size() <= u64::MAX,
        forall|i: int|
            0 <= i < files.len() ==> reading_back::no_zero((#[trigger] files[i]).name@),
    ensures
        reading_back::is_readable(c.set(parser::file_views(files))),
{
    let set = c.set(parser::file_views(files));
    assert forall|i: int| 0 <= i < set.files.len() implies reading_back::has_digests(
        #[trigger] set.files[i],
    ) && reading_back::no_zero(set.files[i].name) by {
        assert(files[i]@ == creator::described(files[i].name@, c.input_files@[i].data@));
    }
    assert forall|i: int| 0 <= i < set.checksums.len() implies reading_back::are_checksums(
        #[trigger] set.checksums[i],
    ) by {}
}

} // verus!
