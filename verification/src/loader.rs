//! Loading a PAR2 set: scanning a file for packets, and putting its volumes and files in order.

use vstd::prelude::*;

use crate::error::{Par2Error, Result};
use crate::galois::sums;
use crate::hash::{compute_md5, same_digest};
use crate::ordering;
use crate::packets;
use crate::packets::FileHash;
use crate::parser;
use crate::progress;
use crate::parser::{FileInfo, FileView, PacketType, RecoveryBlock, RecoveryView, SliceChecksum};
use crate::solver;
use crate::tables::IdTable;

verus! {

/// The position that the main packet gives a file: that of the last of the first `n` entries with
/// its ID. A file that is not listed comes last.
pub open spec fn rank(main_order: Seq<Seq<u8>>, id: Seq<u8>, n: nat) -> u64
    decreases n,
{
    if n == 0 {
        u64::MAX
    } else if main_order[n - 1] == id {
        (n - 1) as u64
    } else {
        rank(main_order, id, (n - 1) as nat)
    }
}

/// What decides the place of a file: its position in the main packet, and then its ID as a
/// little-endian number.
pub open spec fn file_key(main_order: Seq<Seq<u8>>, file: FileView) -> (u64, u128) {
    (rank(main_order, file.file_id, main_order.len()), ordering::little_endian(file.file_id))
}

/// What decides the places of files.
pub open spec fn file_keys(main_order: Seq<Seq<u8>>, files: Seq<FileView>) -> Seq<(u64, u128)> {
    Seq::new(files.len(), |i: int| file_key(main_order, files[i]))
}

/// `out` holds `files` in canonical order: as the main packet lists them, those not listed after
/// the others by their IDs. Descriptions of the same file stay as they stand.
pub open spec fn is_canonical(
    main_order: Seq<Seq<u8>>,
    files: Seq<FileView>,
    out: Seq<FileView>,
) -> bool {
    exists|order: Seq<int>|
        #[trigger] ordering::is_stable_order(file_keys(main_order, files), order) && out
            == Seq::new(files.len(), |i: int| files[order[i]])
}

/// There is only one canonical order.
pub proof fn law_canonical_unique(
    main_order: Seq<Seq<u8>>,
    files: Seq<FileView>,
    a: Seq<FileView>,
    b: Seq<FileView>,
)
    requires
        is_canonical(main_order, files, a),
        is_canonical(main_order, files, b),
    ensures
        a == b,
{
    let keys = file_keys(main_order, files);
    let x = choose|order: Seq<int>|
        #[trigger] ordering::is_stable_order(keys, order) && a == Seq::new(
            files.len(),
            |i: int| files[order[i]],
        );
    let y = choose|order: Seq<int>|
        #[trigger] ordering::is_stable_order(keys, order) && b == Seq::new(
            files.len(),
            |i: int| files[order[i]],
        );
    ordering::law_stable_order_unique(keys, x, y);
}

/// The position that the main packet gives a file.
fn rank_of(main_order: &[FileHash], id: &FileHash) -> (r: u64)
    ensures
        r == rank(parser::id_views(main_order@), id@, main_order@.len()),
{
    let ghost ids = parser::id_views(main_order@);
    let mut n: usize = main_order.len();
    while n > 0
        invariant
            n <= main_order@.len(),
            ids == parser::id_views(main_order@),
            rank(ids, id@, main_order@.len()) == rank(ids, id@, n as nat),
        decreases n,
    {
        if same_digest(&main_order[n - 1], id) {
            return (n - 1) as u64;
        }
        n = n - 1;
    }
    u64::MAX
}

/// Put files into canonical order: as the main packet lists them, those not listed after the
/// others by their IDs as little-endian numbers.
pub fn reorder_files_canonically(files: &mut Vec<FileInfo>, main_order: &[FileHash])
    ensures
        is_canonical(
            parser::id_views(main_order@),
            parser::file_views(old(files)@),
            parser::file_views(final(files)@),
        ),
{
    let n: usize = files.len();
    let ghost ids = parser::id_views(main_order@);
    let ghost before = parser::file_views(files@);
    let mut keys: Vec<(u64, u128)> = Vec::with_capacity(n);
    for i in 0..n
        invariant
            n == files@.len(),
            ids == parser::id_views(main_order@),
            before == parser::file_views(files@),
            keys@.len() == i,
            forall|k: int| 0 <= k < i ==> #[trigger] keys@[k] == file_keys(ids, before)[k],
    {
        keys.push(
            (
                rank_of(main_order, &files[i].file_id),
                ordering::little_endian_number(&files[i].file_id),
            ),
        );
    }
    assert(keys@ =~= file_keys(ids, before));
    let order = ordering::stable_order(&keys);
    let ghost places = solver::indices(order@);
    let mut sorted: Vec<FileInfo> = Vec::with_capacity(n);
    for i in 0..n
        invariant
            n == files@.len(),
            n == order@.len(),
            before == parser::file_views(files@),
            places == solver::indices(order@),
            sums::is_permutation(places, n as nat),
            sorted@.len() == i,
            forall|k: int| 0 <= k < i ==> (#[trigger] sorted@[k])@ == before[places[k]],
    {
        assert(0 <= places[i as int] < n);
        sorted.push(files[order[i]].clone());
    }
    proof {
        assert(parser::file_views(sorted@) =~= Seq::new(n as nat, |i: int| before[places[i]]));
        assert(ordering::is_stable_order(file_keys(ids, before), places));
    }
    *files = sorted;
}

/// What has been found in a file so far.
pub struct Scan {
    /// The ID of the recovery set; zeros until a packet has given it.
    pub set_id: Seq<u8>,
    pub block_size: u64,
    pub files: Map<Seq<u8>, FileView>,
    /// The file descriptions in the order in which they were found.
    pub found: Seq<FileView>,
    pub recovery: Seq<RecoveryView>,
    pub checksums: Map<Seq<u8>, Seq<parser::ChecksumView>>,
    /// The file IDs that the main packet lists.
    pub main_order: Seq<Seq<u8>>,
    /// Where recovery packets start that came before the block size was known.
    pub deferred: Seq<int>,
}

/// Sixteen zeros.
pub open spec fn zero_id() -> Seq<u8> {
    Seq::new(16, |i: int| 0u8)
}

/// Nothing has been found.
pub open spec fn nothing() -> Scan {
    Scan {
        set_id: zero_id(),
        block_size: 0,
        files: Map::empty(),
        found: seq![],
        recovery: seq![],
        checksums: Map::empty(),
        main_order: seq![],
        deferred: seq![],
    }
}

/// The header at `p` gives the ID of the recovery set, if none was given before.
pub open spec fn with_set_id(st: Scan, data: Seq<u8>, p: int) -> Scan {
    if st.set_id == zero_id() {
        Scan { set_id: packets::packet_set_id(data, p), ..st }
    } else {
        st
    }
}

/// What an intact packet other than a recovery packet adds.
pub open spec fn absorbed(st: Scan, data: Seq<u8>, p: int) -> Scan {
    let body = packets::packet_body(data, p);
    match parser::packet_type(packets::packet_kind(data, p)) {
        PacketType::Main => if body.len() < 8 {
            st
        } else {
            Scan {
                block_size: packets::u64_at(body, 0),
                main_order: if st.main_order.len() == 0 {
                    parser::main_ids(body)
                } else {
                    st.main_order
                },
                ..st
            }
        },
        PacketType::FileDescription => match parser::file_description(body) {
            Some(f) => Scan { files: st.files.insert(f.file_id, f), found: st.found.push(f), ..st },
            None => st,
        },
        PacketType::InputFileSlice => if body.len() < 16 {
            st
        } else {
            Scan {
                checksums: st.checksums.insert(
                    packets::id_at(body, 0),
                    parser::ifsc_checksums(body),
                ),
                ..st
            }
        },
        _ => st,
    }
}

/// What is found in a file from `p` on, after `st` has been found before.
///
/// Where no packet starts, the search goes on with the next byte. A packet that is not intact is
/// passed over. Recovery packets are taken without a look at their data, those that come before
/// the block size is known later.
pub open spec fn scan(data: Seq<u8>, p: int, path: Seq<char>, st: Scan) -> Scan
    decreases data.len() + 4 - p,
{
    if p + 64 > data.len() {
        st
    } else if !packets::has_magic(data, p) {
        scan(data, p + 1, path, st)
    } else {
        let st1 = with_set_id(st, data, p);
        if !packets::is_packet(data, p) {
            scan(data, p + 1, path, st1)
        } else {
            let next = packets::after_packet(data, p);
            if parser::packet_type(packets::packet_kind(data, p)) == PacketType::RecoverySlice {
                if st1.block_size == 0 {
                    scan(data, next, path, Scan { deferred: st1.deferred.push(p), ..st1 })
                } else if packets::packet_length(data, p) < 68 {
                    scan(data, p + 1, path, st1)
                } else {
                    scan(
                        data,
                        next,
                        path,
                        Scan {
                            recovery: st1.recovery.push(
                                parser::recovery_at(data, p, st1.block_size, path),
                            ),
                            ..st1
                        },
                    )
                }
            } else if !packets::is_intact(data, p) {
                scan(data, next, path, st1)
            } else {
                scan(data, next, path, absorbed(st1, data, p))
            }
        }
    }
}

/// Where the packets of a file are looked for, from `p` on: at each of these places progress is
/// reported.
pub open spec fn scan_stops(data: Seq<u8>, p: int, st: Scan) -> Seq<int>
    decreases data.len() + 4 - p,
{
    if p >= data.len() {
        seq![]
    } else if p + 64 > data.len() {
        seq![p]
    } else if !packets::has_magic(data, p) {
        seq![p] + scan_stops(data, p + 1, st)
    } else {
        let st1 = with_set_id(st, data, p);
        let next = packets::after_packet(data, p);
        if !packets::is_packet(data, p) {
            seq![p] + scan_stops(data, p + 1, st1)
        } else if parser::packet_type(packets::packet_kind(data, p))
            == PacketType::RecoverySlice {
            if st1.block_size != 0 && packets::packet_length(data, p) < 68 {
                seq![p] + scan_stops(data, p + 1, st1)
            } else {
                seq![p] + scan_stops(data, next, st1)
            }
        } else if !packets::is_intact(data, p) {
            seq![p] + scan_stops(data, next, st1)
        } else {
            seq![p] + scan_stops(data, next, absorbed(st1, data, p))
        }
    }
}

/// Only the block size that is known decides where packets are looked for.
proof fn lemma_stops(data: Seq<u8>, p: int, a: Scan, b: Scan)
    requires
        a.block_size == b.block_size,
    ensures
        scan_stops(data, p, a) == scan_stops(data, p, b),
    decreases data.len() + 4 - p,
{
    if p + 64 <= data.len() {
        if !packets::has_magic(data, p) {
            lemma_stops(data, p + 1, a, b);
        } else {
            let a1 = with_set_id(a, data, p);
            let b1 = with_set_id(b, data, p);
            lemma_stops(data, p + 1, a1, b1);
            if packets::is_packet(data, p) {
                let next = packets::after_packet(data, p);
                lemma_stops(data, next, a1, b1);
                lemma_stops(data, next, absorbed(a1, data, p), absorbed(b1, data, p));
            }
        }
    }
}

/// The percentages that are reported at some places of a file.
pub open spec fn percentages(stops: Seq<int>, length: int) -> Seq<u64> {
    Seq::new(stops.len(), |i: int| progress::percent(stops[i], length) as u64)
}

/// The percentages that are reported while a set is loaded: one for each place where a packet is looked
/// for, and 100 when all is loaded.
pub open spec fn loading_reports(data: Seq<u8>, path: Seq<char>) -> Seq<u64> {
    let all = percentages(scan_stops(data, 0, nothing()), data.len() as int);
    if load_error(data, scan(data, 0, path, nothing())) is None {
        all.push(100)
    } else {
        all
    }
}

/// The recovery blocks of the packets that came before the block size was known.
pub open spec fn deferred_blocks(
    data: Seq<u8>,
    positions: Seq<int>,
    block_size: u64,
    path: Seq<char>,
) -> Seq<RecoveryView>
    decreases positions.len(),
{
    if positions.len() == 0 {
        seq![]
    } else {
        let before = deferred_blocks(data, positions.drop_last(), block_size, path);
        let p = positions.last();
        if packets::packet_length(data, p) >= 68 {
            before.push(parser::recovery_at(data, p, block_size, path))
        } else {
            before
        }
    }
}

/// A file: its path and its contents.
pub struct StoredFile {
    pub path: String,
    pub data: Vec<u8>,
}

/// The volume belongs to the recovery set: its first packet says so.
pub open spec fn belongs(data: Seq<u8>, set_id: Seq<u8>) -> bool {
    &&& data.len() >= 64
    &&& packets::has_magic(data, 0)
    &&& packets::packet_set_id(data, 0) == set_id
}

/// The recovery blocks of those of the first `n` volumes that belong to the recovery set.
pub open spec fn volumes_blocks(
    volumes: Seq<StoredFile>,
    set_id: Seq<u8>,
    block_size: u64,
    n: nat,
) -> Seq<RecoveryView>
    decreases n,
{
    if n == 0 {
        seq![]
    } else {
        let before = volumes_blocks(volumes, set_id, block_size, (n - 1) as nat);
        let v = volumes[n - 1];
        if belongs(v.data@, set_id) {
            before + parser::volume_blocks(v.data@, 0, block_size, v.path@)
        } else {
            before
        }
    }
}

/// A parsed PAR2 set.
pub struct Par2File {
    pub block_size: u64,
    pub files: IdTable<FileInfo>,
    /// The files in canonical order.
    pub files_in_order: Vec<FileInfo>,
    pub recovery_blocks: Vec<RecoveryBlock>,
    pub slice_checksums: IdTable<Vec<SliceChecksum>>,
}

/// The contents of a table of files.
pub open spec fn file_map(m: Map<Seq<u8>, FileInfo>) -> Map<Seq<u8>, FileView> {
    m.map_values(|f: FileInfo| f@)
}

/// The contents of a table of checksums.
pub open spec fn checksum_map(m: Map<Seq<u8>, Vec<SliceChecksum>>) -> Map<
    Seq<u8>,
    Seq<parser::ChecksumView>,
> {
    m.map_values(|v: Vec<SliceChecksum>| parser::checksum_views(v@))
}

/// What is wrong with what was found in a file, if anything is.
pub open spec fn load_error(data: Seq<u8>, st: Scan) -> Option<(bool, Seq<char>)> {
    if data.len() == 0 {
        Some((true, "Invalid PAR2 file: empty file"@))
    } else if st.set_id == zero_id() {
        Some((false, "Invalid PAR2 file: no main packet"@))
    } else if st.block_size == 0 {
        Some((true, "Invalid PAR2 file: block size missing or zero"@))
    } else if st.block_size % 4 != 0 {
        Some((true, "Invalid PAR2 file: block size must be multiple of 4"@))
    } else if st.block_size > usize::MAX {
        Some((true, "Invalid PAR2 file: block size exceeds platform limits"@))
    } else {
        None
    }
}

/// The packets found in the file and its volumes are what the set holds.
pub open spec fn is_loaded(
    par2: Par2File,
    data: Seq<u8>,
    path: Seq<char>,
    volumes: Seq<StoredFile>,
    st: Scan,
) -> bool {
    &&& par2.files.wf()
    &&& par2.slice_checksums.wf()
    &&& par2.block_size == st.block_size
    &&& file_map(par2.files@) == st.files
    &&& is_canonical(st.main_order, st.found, parser::file_views(par2.files_in_order@))
    &&& parser::recovery_views(par2.recovery_blocks@) == st.recovery + deferred_blocks(
        data,
        st.deferred,
        st.block_size,
        path,
    ) + volumes_blocks(volumes, st.set_id, st.block_size, volumes.len())
    &&& checksum_map(par2.slice_checksums@) == st.checksums
}

/// What has been found in a file so far.
struct Found {
    set_id: FileHash,
    block_size: u64,
    files: IdTable<FileInfo>,
    found: Vec<FileInfo>,
    recovery: Vec<RecoveryBlock>,
    checksums: IdTable<Vec<SliceChecksum>>,
    main_order: Vec<FileHash>,
    deferred: Vec<usize>,
}

impl Found {
    spec fn view(&self) -> Scan {
        Scan {
            set_id: self.set_id@,
            block_size: self.block_size,
            files: file_map(self.files@),
            found: parser::file_views(self.found@),
            recovery: parser::recovery_views(self.recovery@),
            checksums: checksum_map(self.checksums@),
            main_order: parser::id_views(self.main_order@),
            deferred: solver::indices(self.deferred@),
        }
    }

    spec fn wf(&self) -> bool {
        self.files.wf() && self.checksums.wf()
    }

    fn new() -> (r: Found)
        ensures
            r.wf(),
            r.view() == nothing(),
            r.deferred@.len() == 0,
    {
        let r = Found {
            set_id: [0u8; 16],
            block_size: 0,
            files: IdTable::new(),
            found: Vec::new(),
            recovery: Vec::new(),
            checksums: IdTable::new(),
            main_order: Vec::new(),
            deferred: Vec::new(),
        };
        proof {
            assert(r.view().set_id =~= zero_id());
            assert(r.view().files =~= Map::empty());
            assert(r.view().found =~= seq![]);
            assert(r.view().recovery =~= seq![]);
            assert(r.view().checksums =~= Map::empty());
            assert(r.view().main_order =~= seq![]);
            assert(r.view().deferred =~= seq![]);
        }
        r
    }

    /// Take in an intact packet other than a recovery packet.
    fn absorb(&mut self, data: &[u8], p: usize, kind: PacketType, body: &[u8])
        requires
            old(self).wf(),
            kind == parser::packet_type(packets::packet_kind(data@, p as int)),
            body@ == packets::packet_body(data@, p as int),
        ensures
            final(self).wf(),
            final(self).view() == absorbed(old(self).view(), data@, p as int),
            final(self).deferred@ == old(self).deferred@,
    {
        match kind {
            PacketType::Main => {
                if let Some(main) = parser::complete_main_packet(body) {
                    self.block_size = main.block_size;
                    if self.main_order.len() == 0 {
                        self.main_order = main.recovery_file_ids;
                    }
                }
            },
            PacketType::FileDescription => {
                if let Some(file) = parser::parse_file_desc_from_body(body) {
                    let ghost table = self.files@;
                    let ghost list = self.found@;
                    let entry = file.clone();
                    self.files.insert(file.file_id, entry);
                    self.found.push(file);
                    proof {
                        assert(file_map(self.files@) =~= file_map(table).insert(
                            file@.file_id,
                            file@,
                        ));
                        assert(parser::file_views(self.found@) =~= parser::file_views(list).push(
                            file@,
                        ));
                    }
                }
            },
            PacketType::InputFileSlice => {
                if let Ok(entry) = parser::parse_ifsc_from_body(body) {
                    let ghost table = self.checksums@;
                    self.checksums.insert(entry.0, entry.1);
                    proof {
                        assert(checksum_map(self.checksums@) =~= checksum_map(table).insert(
                            entry.0@,
                            parser::checksum_views(entry.1@),
                        ));
                    }
                }
            },
            _ => {},
        }
    }
}

/// The packets that were put off are packets.
spec fn put_off(data: Seq<u8>, deferred: Seq<usize>) -> bool {
    forall|i: int|
        0 <= i < deferred.len() ==> packets::is_packet(data, (#[trigger] deferred[i]) as int)
}

impl Found {
    /// Take in the recovery packet at `p`. Returns whether it is passed over, and not only its
    /// first byte.
    fn take_recovery(&mut self, data: &[u8], p: usize, path: &str) -> (passed: bool)
        requires
            old(self).wf(),
            packets::is_packet(data@, p as int),
            put_off(data@, old(self).deferred@),
        ensures
            final(self).wf(),
            put_off(data@, final(self).deferred@),
            ({
                let st = old(self).view();
                if st.block_size == 0 {
                    passed && final(self).view() == (Scan {
                        deferred: st.deferred.push(p as int),
                        ..st
                    })
                } else if packets::packet_length(data@, p as int) < 68 {
                    !passed && final(self).view() == st
                } else {
                    passed && final(self).view() == (Scan {
                        recovery: st.recovery.push(
                            parser::recovery_at(data@, p as int, st.block_size, path@),
                        ),
                        ..st
                    })
                }
            }),
    {
        if self.block_size == 0 {
            let ghost list = self.deferred@;
            self.deferred.push(p);
            proof {
                assert(solver::indices(self.deferred@) =~= solver::indices(list).push(p as int));
                assert forall|i: int| 0 <= i < self.deferred@.len() implies packets::is_packet(
                    data@,
                    (#[trigger] self.deferred@[i]) as int,
                ) by {
                    if i < list.len() {
                        assert(packets::is_packet(data@, list[i] as int));
                    }
                }
            }
            return true;
        }
        let total: usize = data.len();
        if parser::u64_at(data, p + 8) < 68 {
            return false;
        }
        let ghost list = self.recovery@;
        let block = parser::parse_recovery(data, p, self.block_size, path);
        self.recovery.push(block);
        proof {
            assert(parser::recovery_views(self.recovery@) =~= parser::recovery_views(list).push(
                block@,
            ));
        }
        true
    }

    /// Take in the packet at `p`, if it is intact.
    fn take_other(&mut self, data: &[u8], p: usize, kind: PacketType)
        requires
            old(self).wf(),
            packets::is_packet(data@, p as int),
            kind == parser::packet_type(packets::packet_kind(data@, p as int)),
        ensures
            final(self).wf(),
            final(self).deferred@ == old(self).deferred@,
            final(self).view() == (if packets::is_intact(data@, p as int) {
                absorbed(old(self).view(), data@, p as int)
            } else {
                old(self).view()
            }),
    {
        let total: usize = data.len();
        let step: usize = parser::u64_at(data, p + 8) as usize;
        let body: &[u8] = &data[p + 64..p + step];
        let mut hashed: Vec<u8> = vstd::slice::slice_to_vec(&data[p + 32..p + 64]);
        hashed.extend_from_slice(body);
        proof {
            assert(hashed@ =~= packets::packet_set_id(data@, p as int) + packets::packet_kind(
                data@,
                p as int,
            ) + packets::packet_body(data@, p as int));
        }
        let digest = compute_md5(hashed.as_slice());
        let stored = parser::id_at(data, p + 16);
        if same_digest(&digest, &stored) {
            self.absorb(data, p, kind, body);
        }
    }

    /// Look for a packet at `p`, and take it in. Returns where to look next.
    fn advance(&mut self, data: &[u8], p: usize, path: &str) -> (next: usize)
        requires
            old(self).wf(),
            p + 64 <= data@.len(),
            put_off(data@, old(self).deferred@),
        ensures
            final(self).wf(),
            put_off(data@, final(self).deferred@),
            p < next <= data@.len(),
            scan(data@, p as int, path@, old(self).view()) == scan(
                data@,
                next as int,
                path@,
                final(self).view(),
            ),
            scan_stops(data@, p as int, old(self).view()) == seq![p as int] + scan_stops(
                data@,
                next as int,
                final(self).view(),
            ),
    {
        let total: usize = data.len();
        if !parser::has_magic(data, p) {
            return p + 1;
        }
        let ghost st0 = self.view();
        let zero: FileHash = [0u8; 16];
        assert(zero@ =~= zero_id());
        if same_digest(&self.set_id, &zero) {
            self.set_id = parser::id_at(data, p + 32);
        }
        let ghost st1 = self.view();
        assert(st1 == with_set_id(st0, data@, p as int));
        let length: u64 = parser::u64_at(data, p + 8);
        if length < 64 || length > (total - p) as u64 {
            return p + 1;
        }
        let step: usize = length as usize;
        let pad: usize = if step % 4 != 0 {
            4 - step % 4
        } else {
            0
        };
        let ghost after = p + step + pad;
        assert(packets::after_packet(data@, p as int) == after);
        let kind_bytes = parser::id_at(data, p + 48);
        let kind = PacketType::from_bytes(&kind_bytes);
        if kind == PacketType::RecoverySlice {
            if !self.take_recovery(data, p, path) {
                return p + 1;
            }
        } else {
            self.take_other(data, p, kind);
        }
        assert(scan(data@, p as int, path@, st0) == scan(data@, after, path@, self.view()));
        proof {
            if kind == PacketType::RecoverySlice {
                lemma_stops(data@, after, st1, self.view());
            }
            assert(scan_stops(data@, p as int, st0) == seq![p as int] + scan_stops(
                data@,
                after,
                self.view(),
            ));
        }
        if pad > total - p - step {
            proof {
                lemma_scan_end(data@, after, path@, self.view());
                lemma_scan_end(data@, total as int, path@, self.view());
                assert(scan_stops(data@, after, self.view()) =~= scan_stops(
                    data@,
                    total as int,
                    self.view(),
                ));
            }
            total
        } else {
            p + step + pad
        }
    }
}

/// Find all packets of a file, and report the progress.
fn scan_file(data: &[u8], path: &str) -> (r: (Found, Vec<u64>))
    ensures
        r.0.wf(),
        r.0.view() == scan(data@, 0, path@, nothing()),
        put_off(data@, r.0.deferred@),
        r.1@ == percentages(scan_stops(data@, 0, nothing()), data@.len() as int),
{
    let total: usize = data.len();
    let mut st = Found::new();
    let mut p: usize = 0;
    let mut reports: Vec<u64> = Vec::new();
    let ghost all = scan_stops(data@, 0, nothing());
    let ghost mut stops: Seq<int> = seq![];
    assert(stops + all =~= all);
    while total - p >= 64
        invariant
            total == data@.len(),
            p <= total,
            st.wf(),
            scan(data@, 0, path@, nothing()) == scan(data@, p as int, path@, st.view()),
            put_off(data@, st.deferred@),
            all == scan_stops(data@, 0, nothing()),
            all == stops + scan_stops(data@, p as int, st.view()),
            reports@ == percentages(stops, total as int),
        decreases total - p,
    {
        let ghost before = stops;
        reports.push(progress::percent_of(p as u64, total as u64));
        let ghost at = p as int;
        p = st.advance(data, p, path);
        proof {
            stops = before.push(at);
            let rest = scan_stops(data@, p as int, st.view());
            assert(before + (seq![at] + rest) =~= stops + rest);
            assert(reports@ =~= percentages(stops, total as int));
        }
    }
    proof {
        lemma_scan_end(data@, p as int, path@, st.view());
        assert(scan_stops(data@, p as int, st.view()) == (if p < total {
            seq![p as int]
        } else {
            seq![]
        }));
    }
    if p < total {
        reports.push(progress::percent_of(p as u64, total as u64));
        assert(all == stops + seq![p as int]);
    } else {
        assert(all =~= stops);
    }
    assert(reports@ =~= percentages(all, total as int));
    (st, reports)
}

/// Near the end of a file nothing more is found.
proof fn lemma_scan_end(data: Seq<u8>, p: int, path: Seq<char>, st: Scan)
    requires
        p + 64 > data.len(),
    ensures
        scan(data, p, path, st) == st,
{
}

/// The result of loading a set.
pub open spec fn is_load(
    r: Result<Par2File>,
    path: Seq<char>,
    data: Seq<u8>,
    volumes: Seq<StoredFile>,
) -> bool {
    let st = scan(data, 0, path, nothing());
    match load_error(data, st) {
        Some((true, text)) => r matches Err(Par2Error::InvalidFormat(m)) && m@ == text,
        Some((false, text)) => r matches Err(Par2Error::RepairFailed(m)) && m@ == text,
        None => r matches Ok(par2) && is_loaded(par2, data, path, volumes, st),
    }
}

impl Par2File {
    /// Load a PAR2 set from the contents of a file and of the other PAR2 files beside it. A volume
    /// counts if its first packet names the same recovery set.
    pub fn load(path: &str, data: &[u8], volumes: &[StoredFile]) -> (r: Result<Par2File>)
        ensures
            is_load(r, path@, data@, volumes@),
    {
        Par2File::load_with_progress(path, data, volumes).0
    }

    /// Load a PAR2 set, and tell the percentages that are reported meanwhile.
    pub fn load_with_progress(path: &str, data: &[u8], volumes: &[StoredFile]) -> (r: (
        Result<Par2File>,
        Vec<u64>,
    ))
        ensures
            is_load(r.0, path@, data@, volumes@),
            r.1@ == loading_reports(data@, path@),
    {
        if data.len() == 0 {
            let none: Vec<u64> = Vec::new();
            assert(none@ =~= loading_reports(data@, path@));
            return (
                Err(Par2Error::InvalidFormat("Invalid PAR2 file: empty file".to_owned())),
                none,
            );
        }
        let (found, mut reports) = scan_file(data, path);
        let r = Par2File::from_found(found, path, data, volumes);
        if r.is_ok() {
            reports.push(100);
        }
        (r, reports)
    }

    /// Put together a set from the packets of its file and the other files.
    fn from_found(found: Found, path: &str, data: &[u8], volumes: &[StoredFile]) -> (r: Result<
        Par2File,
    >)
        requires
            data@.len() > 0,
            found.wf(),
            found.view() == scan(data@, 0, path@, nothing()),
            put_off(data@, found.deferred@),
        ensures
            is_load(r, path@, data@, volumes@),
    {
        let ghost st = found.view();
        let zero: FileHash = [0u8; 16];
        assert(zero@ =~= zero_id());
        if same_digest(&found.set_id, &zero) {
            return Err(Par2Error::RepairFailed("Invalid PAR2 file: no main packet".to_owned()));
        }
        let block_size: u64 = found.block_size;
        if block_size == 0 {
            return Err(
                Par2Error::InvalidFormat(
                    "Invalid PAR2 file: block size missing or zero".to_owned(),
                ),
            );
        }
        if block_size % 4 != 0 {
            return Err(
                Par2Error::InvalidFormat(
                    "Invalid PAR2 file: block size must be multiple of 4".to_owned(),
                ),
            );
        }
        if block_size > usize::MAX as u64 {
            return Err(
                Par2Error::InvalidFormat(
                    "Invalid PAR2 file: block size exceeds platform limits".to_owned(),
                ),
            );
        }
        let mut recovery_blocks = found.recovery;
        let ghost direct = parser::recovery_views(recovery_blocks@);
        let count: usize = found.deferred.len();
        let ghost positions = solver::indices(found.deferred@);
        assert(positions.take(0) =~= seq![]);
        assert(direct + deferred_blocks(data@, positions.take(0), block_size, path@) =~= direct);
        for i in 0..count
            invariant
                count == found.deferred@.len(),
                positions == solver::indices(found.deferred@),
                put_off(data@, found.deferred@),
                parser::recovery_views(recovery_blocks@) == direct + deferred_blocks(
                    data@,
                    positions.take(i as int),
                    block_size,
                    path@,
                ),
        {
            let p: usize = found.deferred[i];
            let total: usize = data.len();
            let ghost before = recovery_blocks@;
            proof {
                assert(packets::is_packet(data@, found.deferred@[i as int] as int));
                assert(positions.take(i + 1).drop_last() =~= positions.take(i as int));
                assert(positions.take(i + 1).last() == p);
            }
            if parser::u64_at(data, p + 8) >= 68 {
                recovery_blocks.push(parser::parse_recovery(data, p, block_size, path));
                proof {
                    let part = deferred_blocks(
                        data@,
                        positions.take(i as int),
                        block_size,
                        path@,
                    );
                    let block = parser::recovery_at(data@, p as int, block_size, path@);
                    assert(deferred_blocks(data@, positions.take(i + 1), block_size, path@)
                        == part.push(block));
                    assert(parser::recovery_views(recovery_blocks@) =~= parser::recovery_views(
                        before,
                    ).push(block));
                    assert(direct + part.push(block) =~= (direct + part).push(block));
                }
            }
        }
        assert(positions.take(count as int) =~= positions);
        let ghost own = parser::recovery_views(recovery_blocks@);
        let n: usize = volumes.len();
        assert(own + volumes_blocks(volumes@, st.set_id, block_size, 0) =~= own);
        for i in 0..n
            invariant
                n == volumes@.len(),
                st.set_id == found.set_id@,
                block_size != 0,
                block_size % 4 == 0,
                block_size <= usize::MAX,
                parser::recovery_views(recovery_blocks@) == own + volumes_blocks(
                    volumes@,
                    st.set_id,
                    block_size,
                    i as nat,
                ),
        {
            let volume: &StoredFile = &volumes[i];
            if let Ok(id) = parser::get_recovery_set_id(volume.data.as_slice()) {
                if same_digest(&id, &found.set_id) {
                    if let Ok(blocks) = parser::parse_volume_file(
                        volume.data.as_slice(),
                        block_size,
                        volume.path.as_str(),
                    ) {
                        let ghost before = recovery_blocks@;
                        let ghost added = blocks@;
                        let mut more = blocks;
                        recovery_blocks.append(&mut more);
                        proof {
                            assert(parser::recovery_views(recovery_blocks@)
                                =~= parser::recovery_views(before) + parser::recovery_views(
                                added,
                            ));
                            assert(parser::recovery_views(recovery_blocks@) =~= own
                                + volumes_blocks(
                                volumes@,
                                st.set_id,
                                block_size,
                                (i + 1) as nat,
                            ));
                        }
                    }
                }
            }
        }
        let mut files_in_order = found.found;
        reorder_files_canonically(&mut files_in_order, found.main_order.as_slice());
        Ok(
            Par2File {
                block_size,
                files: found.files,
                files_in_order,
                recovery_blocks,
                slice_checksums: found.checksums,
            },
        )
    }
}

/// All main packets of a file give the same block size.
pub open spec fn main_packets_agree(data: Seq<u8>, block_size: u64) -> bool {
    forall|p: int|
        0 <= p && #[trigger] packets::is_packet(data, p) && packets::is_intact(data, p)
            && parser::packet_type(packets::packet_kind(data, p)) == PacketType::Main
            && packets::packet_body(data, p).len() >= 8 ==> packets::u64_at(
            packets::packet_body(data, p),
            0,
        ) == block_size
}

/// Recovery blocks hold so many bytes.
pub open spec fn have_length(blocks: Seq<RecoveryView>, length: u64) -> bool {
    forall|i: int| 0 <= i < blocks.len() ==> (#[trigger] blocks[i]).data_length == length
}

spec fn sizes_agree(st: Scan, block_size: u64) -> bool {
    &&& st.block_size == 0 || st.block_size == block_size
    &&& st.recovery.len() > 0 ==> st.block_size == block_size
    &&& have_length(st.recovery, block_size)
}

proof fn lemma_scanned_sizes(
    data: Seq<u8>,
    p: int,
    path: Seq<char>,
    st: Scan,
    block_size: u64,
)
    requires
        0 <= p,
        main_packets_agree(data, block_size),
        sizes_agree(st, block_size),
    ensures
        sizes_agree(scan(data, p, path, st), block_size),
    decreases data.len() + 4 - p,
{
    if p + 64 <= data.len() {
        if !packets::has_magic(data, p) {
            lemma_scanned_sizes(data, p + 1, path, st, block_size);
        } else {
            let st1 = with_set_id(st, data, p);
            lemma_scanned_sizes(data, p + 1, path, st1, block_size);
            if packets::is_packet(data, p) {
                let next = packets::after_packet(data, p);
                lemma_scanned_sizes(data, next, path, st1, block_size);
                if parser::packet_type(packets::packet_kind(data, p))
                    == PacketType::RecoverySlice {
                    let put_off = Scan { deferred: st1.deferred.push(p), ..st1 };
                    lemma_scanned_sizes(data, next, path, put_off, block_size);
                    if st1.block_size != 0 {
                        let block = parser::recovery_at(data, p, st1.block_size, path);
                        let taken = Scan { recovery: st1.recovery.push(block), ..st1 };
                        lemma_scanned_sizes(data, next, path, taken, block_size);
                    }
                } else if packets::is_intact(data, p) {
                    lemma_scanned_sizes(data, next, path, absorbed(st1, data, p), block_size);
                }
            }
        }
    }
}

proof fn lemma_deferred_sizes(
    data: Seq<u8>,
    positions: Seq<int>,
    block_size: u64,
    path: Seq<char>,
)
    ensures
        have_length(deferred_blocks(data, positions, block_size, path), block_size),
    decreases positions.len(),
{
    if positions.len() > 0 {
        lemma_deferred_sizes(data, positions.drop_last(), block_size, path);
    }
}

proof fn lemma_volume_sizes(data: Seq<u8>, p: int, block_size: u64, path: Seq<char>)
    ensures
        have_length(parser::volume_blocks(data, p, block_size, path), block_size),
    decreases data.len() + 4 - p,
{
    if p + 64 <= data.len() {
        if !packets::is_packet(data, p) {
            lemma_volume_sizes(data, p + 1, block_size, path);
        } else {
            lemma_volume_sizes(data, packets::after_packet(data, p), block_size, path);
        }
    }
}

proof fn lemma_volumes_sizes(
    volumes: Seq<StoredFile>,
    set_id: Seq<u8>,
    block_size: u64,
    n: nat,
)
    ensures
        have_length(volumes_blocks(volumes, set_id, block_size, n), block_size),
    decreases n,
{
    if n > 0 {
        lemma_volumes_sizes(volumes, set_id, block_size, (n - 1) as nat);
        lemma_volume_sizes(volumes[n - 1].data@, 0, block_size, volumes[n - 1].path@);
    }
}

/// All recovery blocks of a set that was loaded have the block size of the set, if its main packets
/// agree on it.
pub proof fn law_recovery_blocks_have_the_block_size(
    par2: Par2File,
    data: Seq<u8>,
    path: Seq<char>,
    volumes: Seq<StoredFile>,
    block_size: u64,
)
    requires
        is_loaded(par2, data, path, volumes, scan(data, 0, path, nothing())),
        main_packets_agree(data, block_size),
    ensures
        have_length(parser::recovery_views(par2.recovery_blocks@), par2.block_size),
{
    let st = scan(data, 0, path, nothing());
    lemma_scanned_sizes(data, 0, path, nothing(), block_size);
    lemma_deferred_sizes(data, st.deferred, st.block_size, path);
    lemma_volumes_sizes(volumes, st.set_id, st.block_size, volumes.len());
}

proof fn lemma_rank(main_order: Seq<Seq<u8>>, id: Seq<u8>, n: nat)
    requires
        n <= main_order.len() < u64::MAX,
    ensures
        rank(main_order, id, n) == u64::MAX <==> forall|q: int|
            0 <= q < n ==> #[trigger] main_order[q] != id,
        rank(main_order, id, n) != u64::MAX ==> rank(main_order, id, n) < n
            && main_order[rank(main_order, id, n) as int] == id,
        forall|q: int|
            0 <= q < n && #[trigger] main_order[q] == id ==> q <= rank(main_order, id, n),
    decreases n,
{
    if n > 0 {
        lemma_rank(main_order, id, (n - 1) as nat);
        if main_order[n - 1] == id {
            assert(0 <= n - 1 < n && main_order[n - 1] == id);
        }
    }
}

/// Files come in the order in which the main packet lists them; those that it does not list come behind
/// them, by their IDs as numbers with the lowest byte first. None is lost and none is added.
pub proof fn law_files_follow_the_main_packet(
    main_order: Seq<Seq<u8>>,
    files: Seq<FileView>,
    out: Seq<FileView>,
    a: int,
    b: int,
)
    requires
        is_canonical(main_order, files, out),
        main_order.len() < u64::MAX,
        forall|p: int, q: int|
            0 <= p < q < main_order.len() ==> #[trigger] main_order[p] != #[trigger] main_order[q],
        0 <= a < b < out.len(),
    ensures
        out.len() == files.len(),
        forall|i: int| 0 <= i < files.len() ==> #[trigger] out.contains(files[i]),
        files.contains(out[a]),
        forall|q: int|
            0 <= q < main_order.len() && #[trigger] main_order[q] == out[b].file_id ==> exists|p: int|
                0 <= p <= q && #[trigger] main_order[p] == out[a].file_id,
        !main_order.contains(out[a].file_id) && !main_order.contains(out[b].file_id)
            ==> ordering::little_endian(out[a].file_id) <= ordering::little_endian(out[b].file_id),
{
    let keys = file_keys(main_order, files);
    let order = choose|order: Seq<int>|
        #[trigger] ordering::is_stable_order(keys, order) && out == Seq::new(
            files.len(),
            |i: int| files[order[i]],
        );
    assert forall|i: int| 0 <= i < files.len() implies #[trigger] out.contains(files[i]) by {
        sums::lemma_permutation_onto(order, files.len(), i);
        let k = choose|k: int| 0 <= k < files.len() && #[trigger] order[k] == i;
        assert(out[k] == files[i]);
    }
    assert(files[order[a]] == out[a]);
    assert(ordering::goes_before(keys, order[a], order[b]));
    let n = main_order.len();
    lemma_rank(main_order, out[a].file_id, n);
    lemma_rank(main_order, out[b].file_id, n);
    let ra = rank(main_order, out[a].file_id, n);
    let rb = rank(main_order, out[b].file_id, n);
    assert(keys[order[a]].0 == ra);
    assert(keys[order[b]].0 == rb);
    assert(ra <= rb);
    assert forall|q: int|
        0 <= q < main_order.len() && #[trigger] main_order[q] == out[b].file_id implies exists|
        p: int,
    |
        0 <= p <= q && #[trigger] main_order[p] == out[a].file_id by {
        assert(rb < n);
        if q < rb {
            assert(main_order[q] != main_order[rb as int]);
        }
        assert(main_order[ra as int] == out[a].file_id);
    }
    if !main_order.contains(out[a].file_id) && !main_order.contains(out[b].file_id) {
        assert(ra == u64::MAX);
        assert(rb == u64::MAX);
    }
}

/// A set is accepted just if its file holds anything, a packet names a set, and the block size is there, a
/// multiple of 4, and fits the platform.
pub proof fn law_sets_are_loaded(data: Seq<u8>, st: Scan)
    ensures
        load_error(data, st) is None <==> data.len() > 0 && st.set_id != Seq::new(
            16,
            |i: int| 0u8,
        ) && st.block_size > 0 && st.block_size % 4 == 0 && st.block_size <= usize::MAX,
{
    assert(zero_id() =~= Seq::new(16, |i: int| 0u8));
}

/// While a set is loaded, percentages are reported from 0 on; if it can be loaded, up to 100.
pub proof fn law_loading_is_reported(data: Seq<u8>, path: Seq<char>, i: int)
    requires
        data.len() > 0,
    ensures
        loading_reports(data, path).len() > 0,
        loading_reports(data, path)[0] == 0,
        0 <= i < loading_reports(data, path).len() ==> loading_reports(data, path)[i] <= 100,
        load_error(data, scan(data, 0, path, nothing())) is None ==> loading_reports(
            data,
            path,
        ).last() == 100,
{
    let stops = scan_stops(data, 0, nothing());
    lemma_stops_begin(data, 0, nothing());
    lemma_stops_lie_in_the_file(data, 0, nothing());
    assert(stops[0] == 0);
    let n = data.len() as int;
    assert forall|k: int| 0 <= k < stops.len() implies 0 <= #[trigger] progress::percent(
        stops[k],
        n,
    ) <= 100 by {
        assert(0 <= stops[k] < n);
        progress::law_percentages_are_rounded_down(stops[k], n);
        assert(stops[k] * 100 / n <= 100 && stops[k] * 100 / n >= 0) by (nonlinear_arith)
            requires
                0 <= stops[k] < n,
        ;
    }
    if 0 <= i < stops.len() {
        assert(0 <= progress::percent(stops[i], n) <= 100);
    }
}

proof fn lemma_stops_begin(data: Seq<u8>, p: int, st: Scan)
    requires
        0 <= p < data.len(),
    ensures
        scan_stops(data, p, st).len() > 0,
        scan_stops(data, p, st)[0] == p,
{
}

spec fn lie_in(stops: Seq<int>, length: int) -> bool {
    forall|k: int| 0 <= k < stops.len() ==> 0 <= #[trigger] stops[k] < length
}

proof fn lemma_one_more_stop(p: int, stops: Seq<int>, length: int)
    requires
        0 <= p < length,
        lie_in(stops, length),
    ensures
        lie_in(seq![p] + stops, length),
{
    let all = seq![p] + stops;
    assert forall|k: int| 0 <= k < all.len() implies 0 <= #[trigger] all[k] < length by {
        if k > 0 {
            assert(all[k] == stops[k - 1]);
        }
    }
}

proof fn lemma_stops_lie_in_the_file(data: Seq<u8>, p: int, st: Scan)
    requires
        0 <= p,
    ensures
        lie_in(scan_stops(data, p, st), data.len() as int),
    decreases data.len() + 4 - p,
{
    let n = data.len() as int;
    if p + 64 <= data.len() {
        if !packets::has_magic(data, p) {
            lemma_stops_lie_in_the_file(data, p + 1, st);
            lemma_one_more_stop(p, scan_stops(data, p + 1, st), n);
        } else {
            let st1 = with_set_id(st, data, p);
            lemma_stops_lie_in_the_file(data, p + 1, st1);
            lemma_one_more_stop(p, scan_stops(data, p + 1, st1), n);
            if packets::is_packet(data, p) {
                let next = packets::after_packet(data, p);
                let st2 = absorbed(st1, data, p);
                lemma_stops_lie_in_the_file(data, next, st1);
                lemma_one_more_stop(p, scan_stops(data, next, st1), n);
                lemma_stops_lie_in_the_file(data, next, st2);
                lemma_one_more_stop(p, scan_stops(data, next, st2), n);
            }
        }
    }
}

/// Loading gives a set just if its packets are accepted, and otherwise says why not.
pub proof fn law_accepted_sets_are_loaded(
    r: Result<Par2File>,
    path: Seq<char>,
    data: Seq<u8>,
    volumes: Seq<StoredFile>,
)
    requires
        is_load(r, path, data, volumes),
    ensures
        ({
            let st = scan(data, 0, path, nothing());
            &&& r is Ok <==> load_error(data, st) is None
            &&& r is Ok ==> is_loaded(r->Ok_0, data, path, volumes, st)
            &&& r is Ok ==> r->Ok_0.block_size == st.block_size && r->Ok_0.block_size > 0
                && r->Ok_0.block_size % 4 == 0
        }),
{
    law_sets_are_loaded(data, scan(data, 0, path, nothing()));
}

/// What a set holds that was loaded: the files and checksums that were found, under their IDs, and the
/// recovery blocks of its file before those of the others.
pub proof fn law_loaded_sets_hold_what_was_found(
    par2: Par2File,
    data: Seq<u8>,
    path: Seq<char>,
    volumes: Seq<StoredFile>,
    st: Scan,
    id: Seq<u8>,
)
    requires
        is_loaded(par2, data, path, volumes, st),
    ensures
        par2.files@.dom().contains(id) <==> st.files.dom().contains(id),
        par2.files@.dom().contains(id) ==> par2.files@[id]@ == st.files[id],
        par2.slice_checksums@.dom().contains(id) <==> st.checksums.dom().contains(id),
        par2.slice_checksums@.dom().contains(id) ==> parser::checksum_views(
            par2.slice_checksums@[id]@,
        ) == st.checksums[id],
        par2.recovery_blocks@.len() >= st.recovery.len(),
        forall|i: int|
            0 <= i < st.recovery.len() ==> (#[trigger] par2.recovery_blocks@[i])@
                == st.recovery[i],
        par2.files_in_order@.len() == st.found.len(),
{
    assert(file_map(par2.files@).dom().contains(id) <==> par2.files@.dom().contains(id));
    assert(checksum_map(par2.slice_checksums@).dom().contains(id)
        <==> par2.slice_checksums@.dom().contains(id));
    let all = parser::recovery_views(par2.recovery_blocks@);
    assert(all.len() == par2.recovery_blocks@.len());
    assert forall|i: int| 0 <= i < st.recovery.len() implies (#[trigger] par2.recovery_blocks@[i])@
        == st.recovery[i] by {
        assert(all[i] == st.recovery[i]);
    }
    assert(parser::file_views(par2.files_in_order@).len() == par2.files_in_order@.len());
}

} // verus!
