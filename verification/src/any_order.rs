//! Packets count wherever they stand in a file, and whatever stands between them.

use vstd::prelude::*;

use crate::loader;
use crate::loader::{Par2File, Scan, StoredFile};
use crate::packets;
use crate::parser;
use crate::parser::{PacketType, RecoveryView};

verus! {

/// The magic of a packet stands at `p`.
pub open spec fn begins(data: Seq<u8>, p: int) -> bool {
    data.subrange(p, p + 8) == seq![0x50u8, 0x41, 0x52, 0x32, 0, 0x50, 0x4b, 0x54]
}

/// Nowhere from `from` up to `to` the magic of a packet stands.
pub open spec fn is_free(data: Seq<u8>, from: int, to: int) -> bool {
    forall|q: int| from <= q < to && q + 64 <= data.len() ==> !#[trigger] begins(data, q)
}

/// The kind of the packet at `p`.
pub open spec fn kind_at(data: Seq<u8>, p: int) -> PacketType {
    parser::packet_type(data.subrange(p + 48, p + 64))
}

/// The packets of a file start at these places, one behind the other, with anything between them that
/// does not look like a packet. Recovery packets hold at least an exponent.
pub open spec fn are_packets(data: Seq<u8>, at: Seq<int>) -> bool {
    &&& forall|k: int|
        0 <= k < at.len() ==> 0 <= #[trigger] at[k] && packets::is_packet(data, at[k]) && (kind_at(
            data,
            at[k],
        ) == PacketType::RecoverySlice ==> packets::packet_length(data, at[k]) >= 68)
    &&& forall|k: int|
        #![trigger at[k]]
        0 <= k < at.len() ==> packets::after_packet(data, at[k]) <= next_of(data, at, k) && is_free(
            data,
            packets::after_packet(data, at[k]),
            next_of(data, at, k),
        )
    &&& is_free(
        data,
        0,
        if at.len() == 0 {
            data.len() as int
        } else {
            at[0]
        },
    )
}

/// Where the packet behind packet `k` starts, or where the file ends.
pub open spec fn next_of(data: Seq<u8>, at: Seq<int>, k: int) -> int {
    if k + 1 < at.len() {
        at[k + 1]
    } else if packets::after_packet(data, at[k]) > data.len() {
        packets::after_packet(data, at[k])
    } else {
        data.len() as int
    }
}

/// What the packet at `p` adds.
spec fn with_packet(st: Scan, data: Seq<u8>, p: int, path: Seq<char>) -> Scan {
    let st1 = loader::with_set_id(st, data, p);
    if kind_at(data, p) == PacketType::RecoverySlice {
        if st1.block_size == 0 {
            Scan { deferred: st1.deferred.push(p), ..st1 }
        } else {
            Scan {
                recovery: st1.recovery.push(parser::recovery_at(data, p, st1.block_size, path)),
                ..st1
            }
        }
    } else if packets::is_intact(data, p) {
        loader::absorbed(st1, data, p)
    } else {
        st1
    }
}

/// What the packets from packet `k` on add.
spec fn with_packets(st: Scan, data: Seq<u8>, at: Seq<int>, k: int, path: Seq<char>) -> Scan
    decreases at.len() - k,
{
    if k >= at.len() {
        st
    } else {
        with_packets(with_packet(st, data, at[k], path), data, at, k + 1, path)
    }
}

proof fn lemma_skip(data: Seq<u8>, p: int, q: int, path: Seq<char>, st: Scan)
    requires
        0 <= p <= q,
        is_free(data, p, q),
    ensures
        loader::scan(data, p, path, st) == loader::scan(data, q, path, st),
    decreases q - p,
{
    if p < q {
        assert(packets::PAR2_MAGIC@ =~= seq![0x50u8, 0x41, 0x52, 0x32, 0, 0x50, 0x4b, 0x54]);
        lemma_skip(data, p + 1, q, path, st);
        if p + 64 <= data.len() {
            assert(!begins(data, p));
        }
    }
}

proof fn lemma_scan_from(data: Seq<u8>, at: Seq<int>, k: int, path: Seq<char>, st: Scan)
    requires
        are_packets(data, at),
        0 <= k < at.len(),
    ensures
        loader::scan(data, at[k], path, st) == with_packets(st, data, at, k, path),
    decreases at.len() - k,
{
    let p = at[k];
    let st1 = with_packet(st, data, p, path);
    let after = packets::after_packet(data, p);
    let next = next_of(data, at, k);
    assert(data.subrange(p + 48, p + 64) == packets::packet_kind(data, p));
    assert(loader::scan(data, p, path, st) == loader::scan(data, after, path, st1));
    lemma_skip(data, after, next, path, st1);
    if k + 1 < at.len() {
        lemma_scan_from(data, at, k + 1, path, st1);
    } else {
        assert(with_packets(st1, data, at, k + 1, path) == st1);
    }
}

proof fn lemma_scan_is(data: Seq<u8>, at: Seq<int>, path: Seq<char>)
    requires
        are_packets(data, at),
    ensures
        loader::scan(data, 0, path, loader::nothing()) == with_packets(
            loader::nothing(),
            data,
            at,
            0,
            path,
        ),
{
    if at.len() == 0 {
        lemma_skip(data, 0, data.len() as int, path, loader::nothing());
    } else {
        lemma_skip(data, 0, at[0], path, loader::nothing());
        lemma_scan_from(data, at, 0, path, loader::nothing());
    }
}

/// Packet `k` is an intact one of a kind.
pub open spec fn is_good(data: Seq<u8>, at: Seq<int>, k: int, kind: PacketType) -> bool {
    0 <= k < at.len() && kind_at(data, at[k]) == kind && packets::is_intact(data, at[k])
}

/// Packet `k` is an intact description of the file with this ID.
pub open spec fn describes(data: Seq<u8>, at: Seq<int>, k: int, id: Seq<u8>) -> bool {
    is_good(data, at, k, PacketType::FileDescription) && packets::packet_body(data, at[k]).len()
        >= 56 && packets::packet_body(data, at[k]).subrange(0, 16) == id
}

/// Packet `k` is intact and holds the checksums of the file with this ID.
pub open spec fn sums_up(data: Seq<u8>, at: Seq<int>, k: int, id: Seq<u8>) -> bool {
    is_good(data, at, k, PacketType::InputFileSlice) && packets::packet_body(data, at[k]).len()
        >= 16 && packets::packet_body(data, at[k]).subrange(0, 16) == id
}

/// Packet `k` is an intact main packet with a block size.
pub open spec fn is_main(data: Seq<u8>, at: Seq<int>, k: int) -> bool {
    is_good(data, at, k, PacketType::Main) && packets::packet_body(data, at[k]).len() >= 8
}

proof fn lemma_files_stay(
    st: Scan,
    data: Seq<u8>,
    at: Seq<int>,
    k: int,
    path: Seq<char>,
    id: Seq<u8>,
)
    requires
        0 <= k,
        forall|m: int| k <= m < at.len() ==> !#[trigger] describes(data, at, m, id),
    ensures
        ({
            let end = with_packets(st, data, at, k, path);
            &&& end.files.dom().contains(id) <==> st.files.dom().contains(id)
            &&& st.files.dom().contains(id) ==> end.files[id] == st.files[id]
        }),
    decreases at.len() - k,
{
    if k < at.len() {
        assert(!describes(data, at, k, id));
        lemma_files_stay(with_packet(st, data, at[k], path), data, at, k + 1, path, id);
    }
}

proof fn lemma_sums_stay(
    st: Scan,
    data: Seq<u8>,
    at: Seq<int>,
    k: int,
    path: Seq<char>,
    id: Seq<u8>,
)
    requires
        0 <= k,
        forall|m: int| k <= m < at.len() ==> !#[trigger] sums_up(data, at, m, id),
    ensures
        ({
            let end = with_packets(st, data, at, k, path);
            &&& end.checksums.dom().contains(id) <==> st.checksums.dom().contains(id)
            &&& st.checksums.dom().contains(id) ==> end.checksums[id] == st.checksums[id]
        }),
    decreases at.len() - k,
{
    if k < at.len() {
        assert(!sums_up(data, at, k, id));
        lemma_sums_stay(with_packet(st, data, at[k], path), data, at, k + 1, path, id);
    }
}

proof fn lemma_found_from(
    st: Scan,
    data: Seq<u8>,
    at: Seq<int>,
    k: int,
    t: int,
    path: Seq<char>,
    id: Seq<u8>,
)
    requires
        0 <= k <= t < at.len(),
    ensures
        describes(data, at, t, id) && (forall|m: int|
            t < m < at.len() ==> !#[trigger] describes(data, at, m, id)) ==> {
            let end = with_packets(st, data, at, k, path);
            &&& end.files.dom().contains(id)
            &&& Some(end.files[id]) == parser::file_description(
                packets::packet_body(data, at[t]),
            )
        },
        sums_up(data, at, t, id) && (forall|m: int|
            t < m < at.len() ==> !#[trigger] sums_up(data, at, m, id)) ==> {
            let end = with_packets(st, data, at, k, path);
            &&& end.checksums.dom().contains(id)
            &&& end.checksums[id] == parser::ifsc_checksums(packets::packet_body(data, at[t]))
        },
    decreases at.len() - k,
{
    let st1 = with_packet(st, data, at[k], path);
    if k < t {
        lemma_found_from(st1, data, at, k + 1, t, path, id);
    } else {
        if describes(data, at, t, id) && (forall|m: int|
            t < m < at.len() ==> !#[trigger] describes(data, at, m, id)) {
            lemma_files_stay(st1, data, at, k + 1, path, id);
        }
        if sums_up(data, at, t, id) && (forall|m: int|
            t < m < at.len() ==> !#[trigger] sums_up(data, at, m, id)) {
            lemma_sums_stay(st1, data, at, k + 1, path, id);
        }
    }
}

/// Every intact file description and every intact list of checksums counts, wherever it stands; of
/// several for the same file the last one. A file that no packet describes is not there.
pub proof fn law_descriptions_count_anywhere(
    data: Seq<u8>,
    at: Seq<int>,
    path: Seq<char>,
    t: int,
    id: Seq<u8>,
)
    requires
        are_packets(data, at),
        0 <= t < at.len(),
    ensures
        ({
            let end = loader::scan(data, 0, path, loader::nothing());
            &&& describes(data, at, t, id) && (forall|m: int|
                t < m < at.len() ==> !#[trigger] describes(data, at, m, id)) ==> {
                &&& end.files.dom().contains(id)
                &&& Some(end.files[id]) == parser::file_description(
                    packets::packet_body(data, at[t]),
                )
            }
            &&& sums_up(data, at, t, id) && (forall|m: int|
                t < m < at.len() ==> !#[trigger] sums_up(data, at, m, id)) ==> {
                &&& end.checksums.dom().contains(id)
                &&& end.checksums[id] == parser::ifsc_checksums(packets::packet_body(data, at[t]))
            }
            &&& (forall|m: int| 0 <= m < at.len() ==> !#[trigger] describes(data, at, m, id))
                ==> !end.files.dom().contains(id)
            &&& (forall|m: int| 0 <= m < at.len() ==> !#[trigger] sums_up(data, at, m, id))
                ==> !end.checksums.dom().contains(id)
        }),
{
    lemma_scan_is(data, at, path);
    lemma_found_from(loader::nothing(), data, at, 0, t, path, id);
    if forall|m: int| 0 <= m < at.len() ==> !#[trigger] describes(data, at, m, id) {
        lemma_files_stay(loader::nothing(), data, at, 0, path, id);
    }
    if forall|m: int| 0 <= m < at.len() ==> !#[trigger] sums_up(data, at, m, id) {
        lemma_sums_stay(loader::nothing(), data, at, 0, path, id);
    }
}

proof fn lemma_main(
    st: Scan,
    data: Seq<u8>,
    at: Seq<int>,
    k: int,
    path: Seq<char>,
    t: int,
)
    requires
        0 <= k <= at.len(),
        is_main(data, at, t),
        forall|m: int| 0 <= m < at.len() && m != t ==> !#[trigger] is_main(data, at, m),
        k > t ==> st.block_size == packets::u64_at(packets::packet_body(data, at[t]), 0)
            && st.main_order == parser::main_ids(packets::packet_body(data, at[t])),
        k <= t ==> st.main_order.len() == 0,
    ensures
        ({
            let end = with_packets(st, data, at, k, path);
            &&& end.block_size == packets::u64_at(packets::packet_body(data, at[t]), 0)
            &&& end.main_order == parser::main_ids(packets::packet_body(data, at[t]))
        }),
    decreases at.len() - k,
{
    if k < at.len() {
        if k != t {
            assert(!is_main(data, at, k));
        }
        lemma_main(with_packet(st, data, at[k], path), data, at, k + 1, path, t);
    }
}

/// The one intact main packet gives the block size and the order of the files, wherever it stands.
pub proof fn law_main_packet_counts_anywhere(
    data: Seq<u8>,
    at: Seq<int>,
    path: Seq<char>,
    t: int,
)
    requires
        are_packets(data, at),
        is_main(data, at, t),
        forall|m: int| 0 <= m < at.len() && m != t ==> !#[trigger] is_main(data, at, m),
    ensures
        ({
            let end = loader::scan(data, 0, path, loader::nothing());
            &&& end.block_size == packets::u64_at(packets::packet_body(data, at[t]), 0)
            &&& end.main_order == parser::main_ids(packets::packet_body(data, at[t]))
        }),
{
    lemma_scan_is(data, at, path);
    lemma_main(loader::nothing(), data, at, 0, path, t);
}

/// The packet was put off, or its block was taken with a block size.
spec fn is_noted(st: Scan, data: Seq<u8>, p: int, path: Seq<char>, block_size: u64) -> bool {
    st.deferred.contains(p) || st.recovery.contains(
        parser::recovery_at(data, p, block_size, path),
    )
}

proof fn lemma_noted_stays(
    st: Scan,
    data: Seq<u8>,
    at: Seq<int>,
    k: int,
    path: Seq<char>,
    p: int,
    block_size: u64,
)
    requires
        0 <= k,
        is_noted(st, data, p, path, block_size),
    ensures
        is_noted(with_packets(st, data, at, k, path), data, p, path, block_size),
    decreases at.len() - k,
{
    if k < at.len() {
        let st1 = with_packet(st, data, at[k], path);
        let block = parser::recovery_at(data, p, block_size, path);
        if st.deferred.contains(p) {
            let i = choose|i: int| 0 <= i < st.deferred.len() && st.deferred[i] == p;
            assert(st1.deferred[i] == p);
        } else {
            let i = choose|i: int| 0 <= i < st.recovery.len() && st.recovery[i] == block;
            assert(st1.recovery[i] == block);
        }
        lemma_noted_stays(st1, data, at, k + 1, path, p, block_size);
    }
}

proof fn lemma_recovery_noted(
    st: Scan,
    data: Seq<u8>,
    at: Seq<int>,
    k: int,
    t: int,
    path: Seq<char>,
    block_size: u64,
)
    requires
        0 <= k <= t < at.len(),
        kind_at(data, at[t]) == PacketType::RecoverySlice,
        st.block_size == 0 || st.block_size == block_size,
        forall|m: int|
            #![trigger is_main(data, at, m)]
            is_main(data, at, m) ==> packets::u64_at(packets::packet_body(data, at[m]), 0)
                == block_size,
    ensures
        is_noted(with_packets(st, data, at, k, path), data, at[t], path, block_size),
    decreases at.len() - k,
{
    let st1 = with_packet(st, data, at[k], path);
    if k < t {
        assert(is_main(data, at, k) ==> packets::u64_at(packets::packet_body(data, at[k]), 0)
            == block_size);
        lemma_recovery_noted(st1, data, at, k + 1, t, path, block_size);
    } else {
        if st.block_size == 0 {
            assert(st1.deferred[st.deferred.len() as int] == at[t]);
        } else {
            assert(st1.recovery[st.recovery.len() as int] == parser::recovery_at(
                data,
                at[t],
                block_size,
                path,
            ));
        }
        lemma_noted_stays(st1, data, at, k + 1, path, at[t], block_size);
    }
}

proof fn lemma_put_off_is_taken(
    data: Seq<u8>,
    positions: Seq<int>,
    p: int,
    block_size: u64,
    path: Seq<char>,
)
    requires
        positions.contains(p),
        packets::packet_length(data, p) >= 68,
    ensures
        loader::deferred_blocks(data, positions, block_size, path).contains(
            parser::recovery_at(data, p, block_size, path),
        ),
    decreases positions.len(),
{
    let list = loader::deferred_blocks(data, positions, block_size, path);
    let before = loader::deferred_blocks(data, positions.drop_last(), block_size, path);
    let block = parser::recovery_at(data, p, block_size, path);
    if positions.last() == p {
        assert(list[before.len() as int] == block);
    } else {
        let i = choose|i: int| 0 <= i < positions.len() && positions[i] == p;
        assert(positions.drop_last()[i] == p);
        lemma_put_off_is_taken(data, positions.drop_last(), p, block_size, path);
        let k = choose|k: int| 0 <= k < before.len() && before[k] == block;
        assert(list[k] == block);
    }
}

/// Every recovery packet of a file counts, wherever it stands, before the main packet too: the set that
/// is loaded has its block, with the block size of the set.
pub proof fn law_recovery_packets_count_anywhere(
    par2: Par2File,
    data: Seq<u8>,
    at: Seq<int>,
    path: Seq<char>,
    volumes: Seq<StoredFile>,
    t: int,
)
    requires
        are_packets(data, at),
        loader::is_loaded(
            par2,
            data,
            path,
            volumes,
            loader::scan(data, 0, path, loader::nothing()),
        ),
        0 <= t < at.len(),
        kind_at(data, at[t]) == PacketType::RecoverySlice,
        forall|m: int|
            #![trigger is_main(data, at, m)]
            is_main(data, at, m) ==> packets::u64_at(packets::packet_body(data, at[m]), 0)
                == par2.block_size,
    ensures
        parser::recovery_views(par2.recovery_blocks@).contains(
            parser::recovery_at(data, at[t], par2.block_size, path),
        ),
{
    let st = loader::scan(data, 0, path, loader::nothing());
    let size = par2.block_size;
    let block = parser::recovery_at(data, at[t], size, path);
    lemma_scan_is(data, at, path);
    lemma_recovery_noted(loader::nothing(), data, at, 0, t, path, size);
    let own = st.recovery;
    let later = loader::deferred_blocks(data, st.deferred, size, path);
    let others = loader::volumes_blocks(volumes, st.set_id, size, volumes.len());
    let all = parser::recovery_views(par2.recovery_blocks@);
    if st.deferred.contains(at[t]) {
        lemma_put_off_is_taken(data, st.deferred, at[t], size, path);
        let k = choose|k: int| 0 <= k < later.len() && later[k] == block;
        assert(all[own.len() + k] == block);
    } else {
        let k = choose|k: int| 0 <= k < own.len() && own[k] == block;
        assert(all[k] == block);
    }
}

proof fn lemma_skip_in_volume(data: Seq<u8>, p: int, q: int, size: u64, path: Seq<char>)
    requires
        0 <= p <= q,
        is_free(data, p, q),
    ensures
        parser::volume_blocks(data, p, size, path) == parser::volume_blocks(data, q, size, path),
    decreases q - p,
{
    if p < q {
        assert(packets::PAR2_MAGIC@ =~= seq![0x50u8, 0x41, 0x52, 0x32, 0, 0x50, 0x4b, 0x54]);
        lemma_skip_in_volume(data, p + 1, q, size, path);
        if p + 64 <= data.len() {
            assert(!begins(data, p));
        }
    }
}

proof fn lemma_volume_from(
    data: Seq<u8>,
    at: Seq<int>,
    k: int,
    t: int,
    size: u64,
    path: Seq<char>,
)
    requires
        are_packets(data, at),
        0 <= k <= t < at.len(),
        kind_at(data, at[t]) == PacketType::RecoverySlice,
    ensures
        parser::volume_blocks(data, at[k], size, path).contains(
            parser::recovery_at(data, at[t], size, path),
        ),
    decreases t - k,
{
    let p = at[k];
    let block = parser::recovery_at(data, at[t], size, path);
    let list = parser::volume_blocks(data, p, size, path);
    let after = packets::after_packet(data, p);
    let rest = parser::volume_blocks(data, after, size, path);
    assert(data.subrange(p + 48, p + 64) == packets::packet_kind(data, p));
    if k == t {
        assert(list[0] == block);
    } else {
        let next = next_of(data, at, k);
        lemma_skip_in_volume(data, after, next, size, path);
        lemma_volume_from(data, at, k + 1, t, size, path);
        let i = choose|i: int| 0 <= i < rest.len() && rest[i] == block;
        if list == rest {
            assert(list[i] == block);
        } else {
            assert(list[i + 1] == block);
        }
    }
}

/// Every recovery packet of another file of the set counts too, wherever it stands.
pub proof fn law_recovery_packets_of_volumes_count(
    par2: Par2File,
    data: Seq<u8>,
    path: Seq<char>,
    volumes: Seq<StoredFile>,
    v: int,
    at: Seq<int>,
    t: int,
)
    requires
        loader::is_loaded(
            par2,
            data,
            path,
            volumes,
            loader::scan(data, 0, path, loader::nothing()),
        ),
        0 <= v < volumes.len(),
        are_packets(volumes[v].data@, at),
        volumes[v].data@.len() >= 64,
        begins(volumes[v].data@, 0),
        volumes[v].data@.subrange(32, 48) == loader::scan(
            data,
            0,
            path,
            loader::nothing(),
        ).set_id,
        0 <= t < at.len(),
        kind_at(volumes[v].data@, at[t]) == PacketType::RecoverySlice,
    ensures
        parser::recovery_views(par2.recovery_blocks@).contains(
            parser::recovery_at(volumes[v].data@, at[t], par2.block_size, volumes[v].path@),
        ),
{
    let st = loader::scan(data, 0, path, loader::nothing());
    let size = par2.block_size;
    let block = parser::recovery_at(volumes[v].data@, at[t], size, volumes[v].path@);
    assert(packets::PAR2_MAGIC@ =~= seq![0x50u8, 0x41, 0x52, 0x32, 0, 0x50, 0x4b, 0x54]);
    lemma_volume_holds(volumes[v].data@, at, t, size, volumes[v].path@);
    lemma_volume_is_taken(volumes, st.set_id, size, volumes.len(), v, block);
    lemma_others_are_taken(par2, data, path, volumes, st, block);
}

proof fn lemma_others_are_taken(
    par2: Par2File,
    data: Seq<u8>,
    path: Seq<char>,
    volumes: Seq<StoredFile>,
    st: Scan,
    block: RecoveryView,
)
    requires
        loader::is_loaded(par2, data, path, volumes, st),
        loader::volumes_blocks(volumes, st.set_id, par2.block_size, volumes.len()).contains(block),
    ensures
        parser::recovery_views(par2.recovery_blocks@).contains(block),
{
    let size = par2.block_size;
    let others = loader::volumes_blocks(volumes, st.set_id, size, volumes.len());
    let own = st.recovery + loader::deferred_blocks(data, st.deferred, size, path);
    let k = choose|k: int| 0 <= k < others.len() && others[k] == block;
    assert(parser::recovery_views(par2.recovery_blocks@)[own.len() + k] == block);
}

proof fn lemma_volume_holds(data: Seq<u8>, at: Seq<int>, t: int, size: u64, path: Seq<char>)
    requires
        are_packets(data, at),
        0 <= t < at.len(),
        kind_at(data, at[t]) == PacketType::RecoverySlice,
    ensures
        parser::volume_blocks(data, 0, size, path).contains(
            parser::recovery_at(data, at[t], size, path),
        ),
{
    lemma_skip_in_volume(data, 0, at[0], size, path);
    lemma_volume_from(data, at, 0, t, size, path);
}

proof fn lemma_volume_is_taken(
    volumes: Seq<StoredFile>,
    set_id: Seq<u8>,
    size: u64,
    n: nat,
    v: int,
    block: RecoveryView,
)
    requires
        0 <= v < n <= volumes.len(),
        loader::belongs(volumes[v].data@, set_id),
        parser::volume_blocks(volumes[v].data@, 0, size, volumes[v].path@).contains(block),
    ensures
        loader::volumes_blocks(volumes, set_id, size, n).contains(block),
    decreases n,
{
    let list = loader::volumes_blocks(volumes, set_id, size, n);
    let before = loader::volumes_blocks(volumes, set_id, size, (n - 1) as nat);
    if v < n - 1 {
        lemma_volume_is_taken(volumes, set_id, size, (n - 1) as nat, v, block);
        let k = choose|k: int| 0 <= k < before.len() && before[k] == block;
        assert(list[k] == block);
    } else {
        let here = parser::volume_blocks(volumes[v].data@, 0, size, volumes[v].path@);
        let k = choose|k: int| 0 <= k < here.len() && here[k] == block;
        assert(list[before.len() + k] == block);
    }
}

/// The ID of the set is that in the first packet whose ID is not zero.
pub proof fn law_first_packet_names_the_set(
    data: Seq<u8>,
    at: Seq<int>,
    path: Seq<char>,
    t: int,
)
    requires
        are_packets(data, at),
        0 <= t < at.len(),
        data.subrange(at[t] + 32, at[t] + 48) != Seq::new(16, |i: int| 0u8),
        forall|m: int|
            0 <= m < t ==> data.subrange(#[trigger] at[m] + 32, at[m] + 48) == Seq::new(
                16,
                |i: int| 0u8,
            ),
    ensures
        loader::scan(data, 0, path, loader::nothing()).set_id == data.subrange(
            at[t] + 32,
            at[t] + 48,
        ),
{
    lemma_scan_is(data, at, path);
    assert(loader::zero_id() =~= Seq::new(16, |i: int| 0u8));
    lemma_set_id(loader::nothing(), data, at, 0, path, t);
}

proof fn lemma_set_id(
    st: Scan,
    data: Seq<u8>,
    at: Seq<int>,
    k: int,
    path: Seq<char>,
    t: int,
)
    requires
        0 <= t < at.len(),
        0 <= k,
        data.subrange(at[t] + 32, at[t] + 48) != loader::zero_id(),
        forall|m: int|
            0 <= m < t ==> data.subrange(#[trigger] at[m] + 32, at[m] + 48) == loader::zero_id(),
        k <= t ==> st.set_id == loader::zero_id(),
        k > t ==> st.set_id == data.subrange(at[t] + 32, at[t] + 48),
    ensures
        with_packets(st, data, at, k, path).set_id == data.subrange(at[t] + 32, at[t] + 48),
    decreases at.len() - k,
{
    if k < at.len() {
        if k < t {
            assert(data.subrange(at[k] + 32, at[k] + 48) == loader::zero_id());
        }
        lemma_set_id(with_packet(st, data, at[k], path), data, at, k + 1, path, t);
    }
}

} // verus!
