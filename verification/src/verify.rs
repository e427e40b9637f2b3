//! Verifying files against the checksums of a PAR2 set.
//!
//! A file is checked block by block if the set holds the checksums of its blocks, and by its digest
//! otherwise. Files are found by their names, and those that are not by their contents.

use vstd::prelude::*;
use vstd::string::*;

use crate::blocks;
use crate::creator;
use crate::error::{Par2Error, Result};
use crate::hash;
use crate::hash::{compute_crc32, compute_md5, same_digest};
use crate::loader::{Par2File, StoredFile};
use crate::packets::FileHash;
use crate::parser;
use crate::parser::{ChecksumView, FileInfo, FileView, SliceChecksum};
use crate::solver;
use crate::tables::IdTable;
use crate::text;

verus! {

/// Block `i` has the checksums that it should have.
pub open spec fn block_is_good(
    data: Seq<u8>,
    checksums: Seq<ChecksumView>,
    block_size: nat,
    i: int,
) -> bool {
    checksums[i] == creator::checksum_of(blocks::block_at(data, block_size, i))
}

/// Those of the first `n` blocks that do not have the checksums that they should have.
pub open spec fn damaged_blocks(
    data: Seq<u8>,
    checksums: Seq<ChecksumView>,
    block_size: nat,
    n: nat,
) -> Seq<int>
    decreases n,
{
    if n == 0 {
        seq![]
    } else {
        let before = damaged_blocks(data, checksums, block_size, (n - 1) as nat);
        if block_is_good(data, checksums, block_size, n - 1) {
            before
        } else {
            before.push(n - 1)
        }
    }
}

/// Just the blocks with wrong checksums are damaged.
pub proof fn law_damaged_blocks(
    data: Seq<u8>,
    checksums: Seq<ChecksumView>,
    block_size: nat,
    n: nat,
    i: int,
)
    requires
        0 <= i < n,
    ensures
        damaged_blocks(data, checksums, block_size, n).contains(i) <==> !block_is_good(
            data,
            checksums,
            block_size,
            i,
        ),
    decreases n,
{
    let list = damaged_blocks(data, checksums, block_size, n);
    let before = damaged_blocks(data, checksums, block_size, (n - 1) as nat);
    if i < n - 1 {
        law_damaged_blocks(data, checksums, block_size, (n - 1) as nat, i);
        if before.contains(i) {
            let k = choose|k: int| 0 <= k < before.len() && before[k] == i;
            assert(list[k] == i);
        }
        if list.contains(i) {
            let k = choose|k: int| 0 <= k < list.len() && list[k] == i;
            assert(before[k] == i);
        }
    } else {
        lemma_damaged_ascend(data, checksums, block_size, (n - 1) as nat);
        if !block_is_good(data, checksums, block_size, i) {
            assert(list[before.len() as int] == i);
        }
    }
}

/// The damaged blocks come in ascending order.
pub proof fn lemma_damaged_ascend(
    data: Seq<u8>,
    checksums: Seq<ChecksumView>,
    block_size: nat,
    n: nat,
)
    ensures
        forall|k: int|
            0 <= k < damaged_blocks(data, checksums, block_size, n).len() ==> 0
                <= #[trigger] damaged_blocks(data, checksums, block_size, n)[k] < n,
        forall|j: int, k: int|
            0 <= j < k < damaged_blocks(data, checksums, block_size, n).len()
                ==> #[trigger] damaged_blocks(data, checksums, block_size, n)[j]
                < #[trigger] damaged_blocks(data, checksums, block_size, n)[k],
    decreases n,
{
    if n > 0 {
        lemma_damaged_ascend(data, checksums, block_size, (n - 1) as nat);
        let before = damaged_blocks(data, checksums, block_size, (n - 1) as nat);
        let list = damaged_blocks(data, checksums, block_size, n);
        assert forall|k: int| 0 <= k < list.len() implies 0 <= #[trigger] list[k] < n by {
            if k < before.len() {
                assert(list[k] == before[k]);
            }
        }
        assert forall|j: int, k: int| 0 <= j < k < list.len() implies #[trigger] list[j]
            < #[trigger] list[k] by {
            assert(list[j] == before[j]);
            if k < before.len() {
                assert(list[k] == before[k]);
            }
        }
    }
}

/// Take block `i` of a file, which need not reach that far.
fn block_or_zeros(data: &[u8], block_size: usize, i: usize) -> (r: Vec<u8>)
    requires
        block_size > 0,
    ensures
        r@ == blocks::block_at(data@, block_size as nat, i as int),
{
    let n: usize = data.len();
    let count: u64 = blocks::count_blocks(n as u64, block_size as u64);
    if (i as u64) < count {
        blocks::take_block(data, block_size, i)
    } else {
        proof {
            blocks::law_block_count(n as int, block_size as int, i as int);
        }
        let r: Vec<u8> = vec![0u8; block_size];
        assert(r@ =~= blocks::block_at(data@, block_size as nat, i as int));
        r
    }
}

/// Find the damaged blocks of a file. The CRC32 checksum is compared first.
pub fn verify_file_blocks(data: &[u8], slice_checksums: &[SliceChecksum], block_size: u64) -> (r: Vec<
    usize,
>)
    requires
        0 < block_size <= usize::MAX,
    ensures
        solver::indices(r@) == damaged_blocks(
            data@,
            parser::checksum_views(slice_checksums@),
            block_size as nat,
            slice_checksums@.len(),
        ),
{
    let ghost checksums = parser::checksum_views(slice_checksums@);
    let n: usize = slice_checksums.len();
    let mut damaged: Vec<usize> = Vec::new();
    assert(solver::indices(damaged@) =~= seq![]);
    for i in 0..n
        invariant
            0 < block_size <= usize::MAX,
            n == slice_checksums@.len(),
            checksums == parser::checksum_views(slice_checksums@),
            solver::indices(damaged@) == damaged_blocks(
                data@,
                checksums,
                block_size as nat,
                i as nat,
            ),
    {
        let block = block_or_zeros(data, block_size as usize, i);
        let expected: &SliceChecksum = &slice_checksums[i];
        let ghost before = damaged@;
        let good: bool = if compute_crc32(block.as_slice()) != expected.crc32 {
            false
        } else {
            let digest = compute_md5(block.as_slice());
            same_digest(&digest, &expected.md5)
        };
        proof {
            assert(checksums[i as int] == expected@);
            assert(good == block_is_good(data@, checksums, block_size as nat, i as int));
        }
        if !good {
            damaged.push(i);
            assert(solver::indices(damaged@) =~= solver::indices(before).push(i as int));
        }
    }
    damaged
}

/// The file is what it should be: each block has the checksums that it should have; or, without
/// checksums, its digest and that of its first 16 KiB are what they should be.
pub open spec fn is_valid(
    data: Seq<u8>,
    file: FileView,
    checksums: Option<Seq<ChecksumView>>,
    block_size: nat,
) -> bool {
    match checksums {
        Some(list) => damaged_blocks(data, list, block_size, list.len()).len() == 0,
        None => {
            &&& file.length >= 16384 ==> hash::md5(parser::piece(data, 0, 16384)) == file.hash_16k
            &&& hash::md5(data) == file.hash
        },
    }
}

/// The checksums, if there are any.
pub open spec fn optional_checksums(list: Option<&[SliceChecksum]>) -> Option<Seq<ChecksumView>> {
    match list {
        Some(v) => Some(parser::checksum_views(v@)),
        None => None,
    }
}

/// Compare the digest of the first 16 KiB of a file.
pub fn verify_16k_hash(data: &[u8], expected_hash: &FileHash) -> (r: bool)
    ensures
        r == (hash::md5(parser::piece(data@, 0, 16384)) == expected_hash@),
{
    let n: usize = data.len();
    let head: usize = if n <= 16384 {
        n
    } else {
        16384
    };
    assert(data@.subrange(0, head as int) =~= parser::piece(data@, 0, 16384));
    let digest = compute_md5(&data[0..head]);
    same_digest(&digest, expected_hash)
}

/// Compare the digest of a file.
pub fn verify_full_hash(data: &[u8], expected_hash: &FileHash) -> (r: bool)
    ensures
        r == (hash::md5(data@) == expected_hash@),
{
    let digest = compute_md5(data);
    same_digest(&digest, expected_hash)
}

/// The message for a file of the wrong size.
pub open spec fn wrong_length_message(path: Seq<char>, expected: nat, got: nat) -> Seq<char> {
    "File size mismatch: "@ + path + " (expected "@ + text::decimal_digits(expected) + ", got "@
        + text::decimal_digits(got) + ")"@
}

/// Verify a file: by the checksums of its blocks if there are any, and by its digest otherwise. It
/// is an error if the file has the wrong size.
pub fn verify_file_smart(
    path: &str,
    data: &[u8],
    file_info: &FileInfo,
    slice_checksums: Option<&[SliceChecksum]>,
    block_size: u64,
) -> (r: Result<bool>)
    requires
        0 < block_size <= usize::MAX,
    ensures
        r is Ok <==> data@.len() == file_info.length,
        r matches Ok(ok) ==> ok == is_valid(
            data@,
            file_info@,
            optional_checksums(slice_checksums),
            block_size as nat,
        ),
        r matches Err(e) ==> e matches Par2Error::RepairFailed(m) && m@ == wrong_length_message(
            path@,
            file_info.length as nat,
            data@.len(),
        ),
{
    let n: usize = data.len();
    if n as u64 != file_info.length {
        let mut message: String = "File size mismatch: ".to_owned();
        message.append(path);
        message.append(" (expected ");
        message.append(text::decimal(file_info.length).as_str());
        message.append(", got ");
        message.append(text::decimal(n as u64).as_str());
        message.append(")");
        return Err(Par2Error::RepairFailed(message));
    }
    if let Some(checksums) = slice_checksums {
        let damaged = verify_file_blocks(data, checksums, block_size);
        return Ok(damaged.len() == 0);
    }
    if file_info.length < 16384 {
        return Ok(verify_full_hash(data, &file_info.hash));
    }
    if !verify_16k_hash(data, &file_info.hash_16k) {
        return Ok(false);
    }
    Ok(verify_full_hash(data, &file_info.hash))
}

/// Verify a file that was reconstructed, before it replaces another.
pub fn verify_reconstructed_file(
    path: &str,
    data: &[u8],
    file_info: &FileInfo,
    slice_checksums: Option<&[SliceChecksum]>,
    block_size: u64,
) -> (r: Result<bool>)
    requires
        0 < block_size <= usize::MAX,
    ensures
        r is Ok <==> data@.len() == file_info.length,
        r matches Ok(ok) ==> ok == is_valid(
            data@,
            file_info@,
            optional_checksums(slice_checksums),
            block_size as nat,
        ),
        r matches Err(e) ==> e matches Par2Error::RepairFailed(m) && m@ == wrong_length_message(
            path@,
            file_info.length as nat,
            data@.len(),
        ),
{
    verify_file_smart(path, data, file_info, slice_checksums, block_size)
}

/// Damage of a file at the level of its blocks.
#[derive(Debug)]
pub struct BlockDamage {
    pub file_id: FileHash,
    pub damaged_block_indices: Vec<usize>,
}

/// The result of a verification.
pub struct VerificationResult {
    /// No file is damaged or missing.
    pub all_verified: bool,
    /// Where the files are that were found, damaged ones too.
    pub verified_files: IdTable<String>,
    /// The files that were not found.
    pub missing_files: Vec<FileHash>,
    /// The files that were found by name but are damaged.
    pub damaged_files: Vec<FileHash>,
    /// The damaged blocks of damaged files, as far as the checksums of blocks are known.
    pub block_damages: IdTable<BlockDamage>,
    /// The files that were found by their contents: where they are, and the names that they
    /// should have.
    pub renamed_files: Vec<(String, String)>,
}

/// How a file was found under its name.
pub enum FileState {
    /// There is no file of that name, or it has the wrong size.
    Absent,
    /// The file is what it should be.
    Good,
    /// The file is damaged.
    Damaged,
}

/// What is verified: the files of a set by their IDs, the files that there are under their names,
/// and other files.
pub struct Case {
    pub ids: Seq<Seq<u8>>,
    pub files: Seq<FileView>,
    pub checksums: Map<Seq<u8>, Seq<ChecksumView>>,
    pub block_size: nat,
    pub named: Map<Seq<u8>, StoredFile>,
    pub extra: Seq<StoredFile>,
}

impl Case {
    /// The checksums of the blocks of file `i`.
    pub open spec fn sums(self, i: int) -> Option<Seq<ChecksumView>> {
        if self.checksums.dom().contains(self.ids[i]) {
            Some(self.checksums[self.ids[i]])
        } else {
            None
        }
    }

    /// The contents are those of file `i`.
    pub open spec fn fits(self, i: int, data: Seq<u8>) -> bool {
        &&& data.len() == self.files[i].length
        &&& is_valid(data, self.files[i], self.sums(i), self.block_size)
    }

    /// How file `i` was found under its name.
    pub open spec fn state(self, i: int) -> FileState {
        if !self.named.dom().contains(self.ids[i]) || self.named[self.ids[i]].data@.len()
            != self.files[i].length {
            FileState::Absent
        } else if self.fits(i, self.named[self.ids[i]].data@) {
            FileState::Good
        } else {
            FileState::Damaged
        }
    }

    /// Some file was found there under its name.
    pub open spec fn is_taken(self, path: Seq<char>) -> bool {
        exists|i: int|
            0 <= i < self.ids.len() && self.state(i) != FileState::Absent && self.named[
            #[trigger] self.ids[i]].path@ == path
    }

    /// The first file from `from` on that was not found under its name and has these contents.
    pub open spec fn first_fit(self, data: Seq<u8>, from: int) -> Option<int>
        decreases self.ids.len() - from,
    {
        if from >= self.ids.len() {
            None
        } else if self.state(from) == FileState::Absent && self.fits(from, data) {
            Some(from)
        } else {
            self.first_fit(data, from + 1)
        }
    }

    /// The file that the other file `j` is.
    pub open spec fn fit_of(self, j: int) -> Option<int> {
        if self.is_taken(self.extra[j].path@) {
            None
        } else {
            self.first_fit(self.extra[j].data@, 0)
        }
    }

    /// The first of the first `n` other files that is file `i`.
    pub open spec fn finder(self, i: int, n: nat) -> Option<int>
        decreases n,
    {
        if n == 0 {
            None
        } else if self.finder(i, (n - 1) as nat) is Some {
            self.finder(i, (n - 1) as nat)
        } else if self.fit_of(n - 1) == Some(i) {
            Some(n - 1)
        } else {
            None
        }
    }

    /// Where file `i` was found, when the first `n` other files have been looked at.
    pub open spec fn place(self, i: int, n: nat) -> Option<Seq<char>> {
        if self.state(i) != FileState::Absent {
            Some(self.named[self.ids[i]].path@)
        } else {
            match self.finder(i, n) {
                Some(j) => Some(self.extra[j].path@),
                None => None,
            }
        }
    }

    /// Those of the first `n` files that are damaged.
    pub open spec fn damaged(self, n: nat) -> Seq<Seq<u8>>
        decreases n,
    {
        if n == 0 {
            seq![]
        } else if self.state(n - 1) == FileState::Damaged {
            self.damaged((n - 1) as nat).push(self.ids[n - 1])
        } else {
            self.damaged((n - 1) as nat)
        }
    }

    /// Those of the first `n` files that were not found.
    pub open spec fn missing(self, n: nat) -> Seq<Seq<u8>>
        decreases n,
    {
        if n == 0 {
            seq![]
        } else if self.place(n - 1, self.extra.len()) is None {
            self.missing((n - 1) as nat).push(self.ids[n - 1])
        } else {
            self.missing((n - 1) as nat)
        }
    }

    /// Those of the first `n` other files by which a file was found, with the names that they
    /// should have.
    pub open spec fn renamed(self, n: nat) -> Seq<(Seq<char>, Seq<char>)>
        decreases n,
    {
        if n == 0 {
            seq![]
        } else {
            let before = self.renamed((n - 1) as nat);
            match self.fit_of(n - 1) {
                Some(i) => if self.finder(i, (n - 1) as nat) is None {
                    before.push((self.extra[n - 1].path@, self.files[i].name))
                } else {
                    before
                },
                None => before,
            }
        }
    }

    /// The damage of file `i` is known block by block.
    pub open spec fn has_damage(self, i: int) -> bool {
        self.state(i) == FileState::Damaged && self.sums(i) is Some
    }

    /// The damaged blocks of file `i`.
    pub open spec fn damage(self, i: int) -> Seq<int> {
        let list = self.sums(i)->Some_0;
        damaged_blocks(self.named[self.ids[i]].data@, list, self.block_size, list.len())
    }
}

/// What is verified when a set is verified with files that there are under the names of its files,
/// and other files.
pub open spec fn case_of(
    par2: Par2File,
    named: Map<Seq<u8>, StoredFile>,
    extra: Seq<StoredFile>,
) -> Case {
    Case {
        ids: Seq::new(par2.files.entries@.len(), |i: int| par2.files.entries@[i].0@),
        files: Seq::new(par2.files.entries@.len(), |i: int| par2.files.entries@[i].1@),
        checksums: crate::loader::checksum_map(par2.slice_checksums@),
        block_size: par2.block_size as nat,
        named,
        extra,
    }
}

/// The table of places says where the files were found, when the first `n` other files have been
/// looked at.
pub open spec fn are_places(table: Map<Seq<u8>, String>, c: Case, n: nat) -> bool {
    &&& forall|i: int|
        0 <= i < c.ids.len() ==> (table.dom().contains(#[trigger] c.ids[i]) <==> c.place(
            i,
            n,
        ) is Some) && (table.dom().contains(c.ids[i]) ==> c.place(i, n) == Some(
            table[c.ids[i]]@,
        ))
    &&& forall|id: Seq<u8>| table.dom().contains(id) ==> c.ids.contains(id)
}

/// The table of damages says which blocks of the first `n` files are damaged.
pub open spec fn are_damages(table: Map<Seq<u8>, BlockDamage>, c: Case, n: nat) -> bool {
    &&& forall|i: int|
        0 <= i < n ==> (table.dom().contains(#[trigger] c.ids[i]) <==> c.has_damage(i)) && (
        table.dom().contains(c.ids[i]) ==> table[c.ids[i]].file_id@ == c.ids[i] && solver::indices(
            table[c.ids[i]].damaged_block_indices@,
        ) == c.damage(i))
    &&& forall|id: Seq<u8>|
        table.dom().contains(id) ==> exists|i: int| 0 <= i < n && #[trigger] c.ids[i] == id
}

/// Renamed files.
pub open spec fn rename_views(s: Seq<(String, String)>) -> Seq<(Seq<char>, Seq<char>)> {
    Seq::new(s.len(), |i: int| (s[i].0@, s[i].1@))
}

/// The result says what was found.
pub open spec fn is_result(r: VerificationResult, c: Case) -> bool {
    let n = c.ids.len();
    &&& r.verified_files.wf()
    &&& r.block_damages.wf()
    &&& are_places(r.verified_files@, c, c.extra.len())
    &&& parser::id_views(r.missing_files@) == c.missing(n)
    &&& parser::id_views(r.damaged_files@) == c.damaged(n)
    &&& are_damages(r.block_damages@, c, n)
    &&& rename_views(r.renamed_files@) == c.renamed(c.extra.len())
    &&& r.all_verified == (c.missing(n).len() == 0 && c.damaged(n).len() == 0)
}

/// No two files of a set have the same ID.
pub proof fn lemma_distinct_ids(par2: Par2File, c: Case)
    requires
        par2.files.wf(),
        c == case_of(par2, c.named, c.extra),
    ensures
        forall|i: int, j: int|
            0 <= i < j < c.ids.len() ==> #[trigger] c.ids[i] != #[trigger] c.ids[j],
{
    assert forall|i: int, j: int| 0 <= i < j < c.ids.len() implies #[trigger] c.ids[i]
        != #[trigger] c.ids[j] by {
        assert(par2.files.entries@[i].0@ != par2.files.entries@[j].0@);
    }
}

/// The checksums of the blocks of a file.
pub fn checksums_of<'a>(par2: &'a Par2File, id: &FileHash) -> (r: Option<&'a [SliceChecksum]>)
    requires
        par2.slice_checksums.wf(),
    ensures
        optional_checksums(r) == (if par2.slice_checksums@.dom().contains(id@) {
            Some(parser::checksum_views(par2.slice_checksums@[id@]@))
        } else {
            None
        }),
{
    match par2.slice_checksums.get(id) {
        Some(list) => Some(list.as_slice()),
        None => None,
    }
}

/// The contents are those of file `i`.
pub(crate) fn fits_file(par2: &Par2File, i: usize, path: &str, data: &[u8], Ghost(c): Ghost<Case>) -> (r: Option<
    bool,
>)
    requires
        i < c.ids.len(),
        c == case_of(*par2, c.named, c.extra),
        par2.files.wf(),
        par2.slice_checksums.wf(),
        0 < par2.block_size <= usize::MAX,
    ensures
        r is Some <==> data@.len() == c.files[i as int].length,
        r matches Some(ok) ==> ok == c.fits(i as int, data@),
{
    let sums = checksums_of(par2, &par2.files.entries[i].0);
    proof {
        assert(optional_checksums(sums) == c.sums(i as int));
    }
    match verify_file_smart(path, data, &par2.files.entries[i].1, sums, par2.block_size) {
        Ok(ok) => Some(ok),
        Err(_) => None,
    }
}

/// What was found by name.
struct ByName {
    places: IdTable<String>,
    damaged: Vec<FileHash>,
    /// For each file whether it was not found.
    absent: Vec<bool>,
    /// For each file whether it is damaged.
    bad: Vec<bool>,
}

impl ByName {
    /// The first `m` files have been looked for.
    spec fn is_known(&self, c: Case, m: nat) -> bool {
        &&& self.absent@.len() == m
        &&& self.bad@.len() == m
        &&& forall|i: int|
            0 <= i < m ==> #[trigger] self.absent@[i] == (c.state(i) == FileState::Absent)
        &&& forall|i: int|
            0 <= i < m ==> #[trigger] self.bad@[i] == (c.state(i) == FileState::Damaged)
    }

    /// The first `m` files have been looked for, and what was found is listed.
    spec fn is_done(&self, c: Case, m: nat) -> bool {
        &&& self.is_known(c, m)
        &&& self.places.wf()
        &&& forall|i: int|
            0 <= i < m ==> (self.places@.dom().contains(#[trigger] c.ids[i]) <==> c.state(i)
                != FileState::Absent) && (self.places@.dom().contains(c.ids[i]) ==> self.places@[
            c.ids[i]]@ == c.named[c.ids[i]].path@)
        &&& forall|id: Seq<u8>|
            self.places@.dom().contains(id) ==> exists|i: int|
                0 <= i < m && #[trigger] c.ids[i] == id
        &&& parser::id_views(self.damaged@) == c.damaged(m)
    }

    /// Look for file `m`.
    fn look(
        &mut self,
        par2: &Par2File,
        named: &IdTable<StoredFile>,
        m: usize,
        Ghost(c): Ghost<Case>,
    )
        requires
            m < c.ids.len(),
            c == case_of(*par2, named@, c.extra),
            par2.files.wf(),
            par2.slice_checksums.wf(),
            named.wf(),
            0 < par2.block_size <= usize::MAX,
            old(self).is_done(c, m as nat),
        ensures
            final(self).is_done(c, (m + 1) as nat),
    {
        let id: FileHash = par2.files.entries[m].0;
        let ghost before = *self;
        proof {
            lemma_distinct_ids(*par2, c);
            assert(c.ids[m as int] == id@);
            assert(c.files[m as int] == par2.files.entries@[m as int].1@);
            if self.places@.dom().contains(id@) {
                let i = choose|i: int| 0 <= i < m && #[trigger] c.ids[i] == id@;
                assert(c.ids[i] != c.ids[m as int]);
            }
        }
        let mut absent: bool = true;
        let mut bad: bool = false;
        if let Some(file) = named.get(&id) {
            match fits_file(par2, m, file.path.as_str(), file.data.as_slice(), Ghost(c)) {
                Some(ok) => {
                    absent = false;
                    bad = !ok;
                    self.places.insert(id, file.path.clone());
                    if bad {
                        self.damaged.push(id);
                    }
                },
                None => {},
            }
        }
        self.absent.push(absent);
        self.bad.push(bad);
        proof {
            assert(absent == (c.state(m as int) == FileState::Absent));
            assert(bad == (c.state(m as int) == FileState::Damaged));
            if bad {
                assert(parser::id_views(self.damaged@) =~= parser::id_views(before.damaged@).push(
                    id@,
                ));
            }
            assert forall|i: int| 0 <= i < m + 1 implies (self.places@.dom().contains(
                #[trigger] c.ids[i],
            ) <==> c.state(i) != FileState::Absent) && (self.places@.dom().contains(c.ids[i])
                ==> self.places@[c.ids[i]]@ == c.named[c.ids[i]].path@) by {
                if i < m {
                    assert(c.ids[i] != c.ids[m as int]);
                }
            }
            assert forall|key: Seq<u8>| self.places@.dom().contains(key) implies exists|i: int|
                0 <= i < m + 1 && #[trigger] c.ids[i] == key by {
                if key == id@ {
                    assert(c.ids[m as int] == key);
                } else {
                    assert(before.places@.dom().contains(key));
                    let i = choose|i: int| 0 <= i < m && #[trigger] c.ids[i] == key;
                    assert(c.ids[i] == key);
                }
            }
        }
    }
}

/// Look for all files by their names.
fn match_by_name(par2: &Par2File, named: &IdTable<StoredFile>, Ghost(c): Ghost<Case>) -> (r: ByName)
    requires
        c == case_of(*par2, named@, c.extra),
        par2.files.wf(),
        par2.slice_checksums.wf(),
        named.wf(),
        0 < par2.block_size <= usize::MAX,
    ensures
        r.is_done(c, c.ids.len()),
{
    let n: usize = par2.files.entries.len();
    let mut r = ByName {
        places: IdTable::new(),
        damaged: Vec::new(),
        absent: Vec::new(),
        bad: Vec::new(),
    };
    assert(parser::id_views(r.damaged@) =~= c.damaged(0));
    for i in 0..n
        invariant
            n == par2.files.entries@.len(),
            n == c.ids.len(),
            c == case_of(*par2, named@, c.extra),
            par2.files.wf(),
            par2.slice_checksums.wf(),
            named.wf(),
            0 < par2.block_size <= usize::MAX,
            r.is_done(c, i as nat),
    {
        r.look(par2, named, i, Ghost(c));
    }
    r
}

/// Whether a file was found at a path under its name.
fn path_is_taken(
    par2: &Par2File,
    named: &IdTable<StoredFile>,
    by_name: &ByName,
    path: &String,
    Ghost(c): Ghost<Case>,
) -> (r: bool)
    requires
        c == case_of(*par2, named@, c.extra),
        named.wf(),
        by_name.is_known(c, c.ids.len()),
    ensures
        r == c.is_taken(path@),
{
    let n: usize = par2.files.entries.len();
    for i in 0..n
        invariant
            n == par2.files.entries@.len(),
            n == c.ids.len(),
            c == case_of(*par2, named@, c.extra),
            named.wf(),
            by_name.is_known(c, c.ids.len()),
            forall|k: int|
                0 <= k < i && c.state(k) != FileState::Absent ==> c.named[
                #[trigger] c.ids[k]].path@ != path@,
    {
        assert(by_name.absent@[i as int] == (c.state(i as int) == FileState::Absent));
        assert(c.ids[i as int] == par2.files.entries@[i as int].0@);
        if !by_name.absent[i] {
            if let Some(file) = named.get(&par2.files.entries[i].0) {
                if file.path == *path {
                    assert(c.named[c.ids[i as int]].path@ == path@);
                    return true;
                }
            }
        }
    }
    false
}

/// Find the file that another file is.
fn find_fit(
    par2: &Par2File,
    by_name: &ByName,
    file: &StoredFile,
    Ghost(c): Ghost<Case>,
) -> (r: Option<usize>)
    requires
        c == case_of(*par2, c.named, c.extra),
        par2.files.wf(),
        par2.slice_checksums.wf(),
        0 < par2.block_size <= usize::MAX,
        by_name.is_known(c, c.ids.len()),
    ensures
        match r {
            Some(i) => c.first_fit(file.data@, 0) == Some(i as int) && i < c.ids.len() && c.state(
                i as int,
            ) == FileState::Absent,
            None => c.first_fit(file.data@, 0) is None,
        },
{
    let n: usize = par2.files.entries.len();
    for i in 0..n
        invariant
            n == par2.files.entries@.len(),
            n == c.ids.len(),
            c == case_of(*par2, c.named, c.extra),
            par2.files.wf(),
            par2.slice_checksums.wf(),
            0 < par2.block_size <= usize::MAX,
            by_name.is_known(c, c.ids.len()),
            c.first_fit(file.data@, 0) == c.first_fit(file.data@, i as int),
    {
        assert(by_name.absent@[i as int] == (c.state(i as int) == FileState::Absent));
        if by_name.absent[i] {
            let fits = fits_file(par2, i, file.path.as_str(), file.data.as_slice(), Ghost(c));
            if fits == Some(true) {
                return Some(i);
            }
        }
    }
    None
}

pub proof fn lemma_first_fit(c: Case, data: Seq<u8>, from: int)
    requires
        0 <= from,
    ensures
        c.first_fit(data, from) matches Some(i) ==> from <= i < c.ids.len() && c.state(i)
            == FileState::Absent && c.fits(i, data),
    decreases c.ids.len() - from,
{
    if from < c.ids.len() {
        lemma_first_fit(c, data, from + 1);
    }
}

/// A file that was found among other files has the contents that it should have, and was not found
/// under its name.
pub proof fn law_found_files_fit(c: Case, i: int, n: nat)
    requires
        n <= c.extra.len(),
    ensures
        c.finder(i, n) matches Some(j) ==> 0 <= j < n && c.state(i) == FileState::Absent && c.fits(
            i,
            c.extra[j].data@,
        ),
    decreases n,
{
    if n > 0 {
        law_found_files_fit(c, i, (n - 1) as nat);
        lemma_first_fit(c, c.extra[n - 1].data@, 0);
    }
}

proof fn lemma_first_fit_is(c: Case, data: Seq<u8>, from: int, i: int)
    requires
        0 <= from <= i < c.ids.len(),
        c.state(i) == FileState::Absent,
        c.fits(i, data),
        forall|k: int|
            0 <= k < c.ids.len() && k != i && #[trigger] c.state(k) == FileState::Absent
                ==> !c.fits(k, data),
    ensures
        c.first_fit(data, from) == Some(i),
    decreases i - from,
{
    if from < i {
        assert(c.state(from) == FileState::Absent ==> !c.fits(from, data));
        lemma_first_fit_is(c, data, from + 1, i);
    }
}

proof fn lemma_finder_stays(c: Case, i: int, j: int, n: nat)
    requires
        0 <= j < n,
        c.fit_of(j) == Some(i),
    ensures
        c.finder(i, n) is Some,
    decreases n,
{
    if j < n - 1 {
        lemma_finder_stays(c, i, j, (n - 1) as nat);
    }
}

/// A file that is not under its name is found among the other files by its contents, unless the file
/// that has them was found under a name of the set, or they are also those of another file that is not
/// under its name.
pub proof fn law_renamed_files_are_found(c: Case, i: int, j: int)
    requires
        0 <= i < c.ids.len(),
        0 <= j < c.extra.len(),
        c.state(i) == FileState::Absent,
        c.fits(i, c.extra[j].data@),
        !c.is_taken(c.extra[j].path@),
        forall|k: int|
            0 <= k < c.ids.len() && k != i && #[trigger] c.state(k) == FileState::Absent
                ==> !c.fits(k, c.extra[j].data@),
    ensures
        c.place(i, c.extra.len()) is Some,
{
    lemma_first_fit_is(c, c.extra[j].data@, 0, i);
    lemma_finder_stays(c, i, j, c.extra.len());
}

/// Look at the other file `j`: it may be a file that was not found yet.
fn look_at_extra(
    par2: &Par2File,
    named: &IdTable<StoredFile>,
    by_name: &ByName,
    file: &StoredFile,
    j: usize,
    places: &mut IdTable<String>,
    renamed: &mut Vec<(String, String)>,
    Ghost(c): Ghost<Case>,
)
    requires
        j < c.extra.len(),
        *file == c.extra[j as int],
        c == case_of(*par2, named@, c.extra),
        par2.files.wf(),
        par2.slice_checksums.wf(),
        named.wf(),
        0 < par2.block_size <= usize::MAX,
        by_name.is_known(c, c.ids.len()),
        old(places).wf(),
        are_places(old(places)@, c, j as nat),
        rename_views(old(renamed)@) == c.renamed(j as nat),
    ensures
        final(places).wf(),
        are_places(final(places)@, c, (j + 1) as nat),
        rename_views(final(renamed)@) == c.renamed((j + 1) as nat),
{
    let ghost before = places@;
    let ghost list = renamed@;
    let fit: Option<usize> = if path_is_taken(par2, named, by_name, &file.path, Ghost(c)) {
        None
    } else {
        find_fit(par2, by_name, file, Ghost(c))
    };
    proof {
        lemma_distinct_ids(*par2, c);
        assert(match fit {
            Some(i) => c.fit_of(j as int) == Some(i as int),
            None => c.fit_of(j as int) is None,
        });
    }
    if let Some(i) = fit {
        let id: FileHash = par2.files.entries[i].0;
        assert(c.ids[i as int] == id@);
        assert(c.place(i as int, j as nat) is Some <==> c.finder(i as int, j as nat) is Some);
        if places.get(&id).is_none() {
            places.insert(id, file.path.clone());
            renamed.push((file.path.clone(), par2.files.entries[i].1.name.clone()));
            assert(rename_views(renamed@) =~= rename_views(list).push(
                (file.path@, c.files[i as int].name),
            ));
        }
    }
    proof {
        assert forall|k: int| 0 <= k < c.ids.len() implies (places@.dom().contains(
            #[trigger] c.ids[k],
        ) <==> c.place(k, (j + 1) as nat) is Some) && (places@.dom().contains(c.ids[k]) ==> c.place(
            k,
            (j + 1) as nat,
        ) == Some(places@[c.ids[k]]@)) by {
            assert(before.dom().contains(c.ids[k]) <==> c.place(k, j as nat) is Some);
            if fit != Some(k as usize) {
                assert(c.finder(k, (j + 1) as nat) == c.finder(k, j as nat)) by {
                    if c.fit_of(j as int) == Some(k) {
                        assert(fit is Some);
                    }
                }
                if let Some(i) = fit {
                    if i < k {
                        assert(c.ids[i as int] != c.ids[k]);
                    } else {
                        assert(c.ids[k] != c.ids[i as int]);
                    }
                }
            }
        }
        assert forall|id: Seq<u8>| places@.dom().contains(id) implies c.ids.contains(id) by {
            if !before.dom().contains(id) {
                assert(c.ids[fit->Some_0 as int] == id);
            }
        }
    }
}

/// List the files that were not found.
fn list_missing(par2: &Par2File, places: &IdTable<String>, Ghost(c): Ghost<Case>) -> (r: Vec<FileHash>)
    requires
        c == case_of(*par2, c.named, c.extra),
        places.wf(),
        are_places(places@, c, c.extra.len()),
    ensures
        parser::id_views(r@) == c.missing(c.ids.len()),
{
    let n: usize = par2.files.entries.len();
    let mut r: Vec<FileHash> = Vec::new();
    assert(parser::id_views(r@) =~= c.missing(0));
    for i in 0..n
        invariant
            n == par2.files.entries@.len(),
            n == c.ids.len(),
            c == case_of(*par2, c.named, c.extra),
            places.wf(),
            are_places(places@, c, c.extra.len()),
            parser::id_views(r@) == c.missing(i as nat),
    {
        let id: FileHash = par2.files.entries[i].0;
        assert(c.ids[i as int] == id@);
        let ghost before = r@;
        if places.get(&id).is_none() {
            r.push(id);
            assert(parser::id_views(r@) =~= parser::id_views(before).push(id@));
        }
    }
    r
}

/// Find the damaged blocks of damaged files.
fn list_damages(
    par2: &Par2File,
    named: &IdTable<StoredFile>,
    by_name: &ByName,
    Ghost(c): Ghost<Case>,
) -> (r: IdTable<BlockDamage>)
    requires
        c == case_of(*par2, named@, c.extra),
        par2.files.wf(),
        par2.slice_checksums.wf(),
        named.wf(),
        0 < par2.block_size <= usize::MAX,
        by_name.is_known(c, c.ids.len()),
    ensures
        r.wf(),
        are_damages(r@, c, c.ids.len()),
{
    let n: usize = par2.files.entries.len();
    let mut r: IdTable<BlockDamage> = IdTable::new();
    proof {
        lemma_distinct_ids(*par2, c);
    }
    for i in 0..n
        invariant
            n == par2.files.entries@.len(),
            n == c.ids.len(),
            c == case_of(*par2, named@, c.extra),
            par2.files.wf(),
            par2.slice_checksums.wf(),
            named.wf(),
            0 < par2.block_size <= usize::MAX,
            by_name.is_known(c, c.ids.len()),
            forall|a: int, b: int|
                0 <= a < b < c.ids.len() ==> #[trigger] c.ids[a] != #[trigger] c.ids[b],
            r.wf(),
            are_damages(r@, c, i as nat),
    {
        let id: FileHash = par2.files.entries[i].0;
        let ghost before = r@;
        proof {
            assert(c.ids[i as int] == id@);
            assert(by_name.bad@[i as int] == (c.state(i as int) == FileState::Damaged));
            if before.dom().contains(id@) {
                let k = choose|k: int| 0 <= k < i && #[trigger] c.ids[k] == id@;
                assert(c.ids[k] != c.ids[i as int]);
            }
        }
        if by_name.bad[i] {
            if let Some(checksums) = checksums_of(par2, &id) {
                if let Some(file) = named.get(&id) {
                    let damaged = verify_file_blocks(
                        file.data.as_slice(),
                        checksums,
                        par2.block_size,
                    );
                    if damaged.len() > 0 {
                        r.insert(id, BlockDamage { file_id: id, damaged_block_indices: damaged });
                    }
                    proof {
                        assert(c.sums(i as int) == Some(parser::checksum_views(checksums@)));
                        assert(solver::indices(damaged@) == c.damage(i as int));
                        assert(damaged@.len() > 0) by {
                            assert(solver::indices(damaged@).len() == damaged@.len());
                        }
                    }
                }
            }
        }
        proof {
            assert forall|k: int| 0 <= k < i + 1 implies (r@.dom().contains(#[trigger] c.ids[k])
                <==> c.has_damage(k)) && (r@.dom().contains(c.ids[k]) ==> r@[c.ids[k]].file_id@
                == c.ids[k] && solver::indices(r@[c.ids[k]].damaged_block_indices@) == c.damage(
                k,
            )) by {
                if k < i {
                    assert(c.ids[k] != c.ids[i as int]);
                    assert(before.dom().contains(c.ids[k]) <==> c.has_damage(k));
                }
            }
            assert forall|key: Seq<u8>| r@.dom().contains(key) implies exists|k: int|
                0 <= k < i + 1 && #[trigger] c.ids[k] == key by {
                if before.dom().contains(key) {
                    let k = choose|k: int| 0 <= k < i && #[trigger] c.ids[k] == key;
                    assert(c.ids[k] == key);
                } else {
                    assert(c.ids[i as int] == key);
                }
            }
        }
    }
    r
}

/// Verify the files of a set. `named` holds the files that there are under the names of the files of
/// the set, by their IDs. The files that are not found there are looked for among the other files,
/// by their contents.
pub fn verify_files(
    par2_data: &Par2File,
    named: &IdTable<StoredFile>,
    extra_files: &[StoredFile],
) -> (r: VerificationResult)
    requires
        par2_data.files.wf(),
        par2_data.slice_checksums.wf(),
        named.wf(),
        0 < par2_data.block_size <= usize::MAX,
    ensures
        is_result(r, case_of(*par2_data, named@, extra_files@)),
{
    let ghost c = case_of(*par2_data, named@, extra_files@);
    let mut by_name = match_by_name(par2_data, named, Ghost(c));
    let block_damages = list_damages(par2_data, named, &by_name, Ghost(c));
    let mut places: IdTable<String> = IdTable::new();
    std::mem::swap(&mut places, &mut by_name.places);
    let mut damaged: Vec<FileHash> = Vec::new();
    std::mem::swap(&mut damaged, &mut by_name.damaged);
    let mut renamed: Vec<(String, String)> = Vec::new();
    let m: usize = extra_files.len();
    assert(rename_views(renamed@) =~= c.renamed(0));
    for j in 0..m
        invariant
            m == extra_files@.len(),
            c == case_of(*par2_data, named@, extra_files@),
            par2_data.files.wf(),
            par2_data.slice_checksums.wf(),
            named.wf(),
            0 < par2_data.block_size <= usize::MAX,
            by_name.is_known(c, c.ids.len()),
            places.wf(),
            are_places(places@, c, j as nat),
            rename_views(renamed@) == c.renamed(j as nat),
    {
        look_at_extra(
            par2_data,
            named,
            &by_name,
            &extra_files[j],
            j,
            &mut places,
            &mut renamed,
            Ghost(c),
        );
    }
    let missing = list_missing(par2_data, &places, Ghost(c));
    let all_verified: bool = damaged.len() == 0 && missing.len() == 0;
    proof {
        assert(parser::id_views(damaged@).len() == damaged@.len());
        assert(parser::id_views(missing@).len() == missing@.len());
    }
    VerificationResult {
        all_verified,
        verified_files: places,
        missing_files: missing,
        damaged_files: damaged,
        block_damages,
        renamed_files: renamed,
    }
}

} // verus!
