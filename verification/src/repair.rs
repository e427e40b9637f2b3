//! Repairing files: restoring their damaged blocks, putting the files together, and verifying them.

use vstd::prelude::*;
use vstd::string::*;

use crate::blocks;
use crate::chunks;
use crate::creator;
use crate::elimination;
use crate::error::{Par2Error, Result};
use crate::galois::bulk;
use crate::galois::sums;
use crate::loader::{Par2File, StoredFile};
use crate::messages;
use crate::messages::{Message, MessageLevel};
use crate::packets::FileHash;
use crate::parser;
use crate::parser::{FileInfo, FileView, RecoveryBlock, RecoveryView};
use crate::reconstruction;
use crate::reed_solomon;
use crate::reed_solomon::{Par2ReedSolomon, ReconstructionTransform};
use crate::repair_plan;
use crate::repair_plan::RepairPlan;
use crate::solver;
use crate::tables::IdTable;
use crate::text;
use crate::verify;
use crate::verify::VerificationResult;

verus! {

/// No file after file `f` has its ID.
pub open spec fn is_last(files: Seq<FileView>, f: int) -> bool {
    forall|g: int| f < g < files.len() ==> (#[trigger] files[g]).file_id != files[f].file_id
}

/// For each data block of the first `n` files the file that it belongs to, and its number in that
/// file. The blocks of a file whose ID comes again later belong to none.
pub open spec fn block_owners(files: Seq<FileView>, block_size: int, n: nat) -> Seq<
    Option<(int, int)>,
>
    decreases n,
{
    if n == 0 {
        seq![]
    } else {
        let f = n - 1;
        block_owners(files, block_size, f as nat) + Seq::new(
            blocks::block_count(files[f].length as int, block_size) as nat,
            |j: int|
                if is_last(files, f) {
                    Some((f, j))
                } else {
                    None
                },
        )
    }
}

/// A block that is read, or why it cannot be read.
pub enum Source {
    Bytes(Seq<u8>),
    Failure(Seq<char>),
}

/// Data block `b`, from the files that are there.
pub open spec fn data_source(
    files: Seq<FileView>,
    block_size: int,
    inputs: Map<Seq<u8>, Vec<u8>>,
    b: int,
) -> Source {
    match block_owners(files, block_size, files.len())[b] {
        None => Source::Failure(
            "Block "@ + text::decimal_digits(b as nat) + " not found in block_to_file map"@,
        ),
        Some((f, j)) => if inputs.dom().contains(files[f].file_id) {
            Source::Bytes(blocks::block_at(inputs[files[f].file_id]@, block_size as nat, j))
        } else {
            Source::Failure("Input file handle not found"@)
        },
    }
}

/// The first of some files at a path.
pub open spec fn stored_at(stores: Seq<StoredFile>, path: Seq<char>, from: int) -> Option<Seq<u8>>
    decreases stores.len() - from,
{
    if from >= stores.len() {
        None
    } else if stores[from].path@ == path {
        Some(stores[from].data@)
    } else {
        stored_at(stores, path, from + 1)
    }
}

/// Bytes from `offset` on, at most `length` of them, filled up with zeros to `size`.
pub open spec fn filled(data: Seq<u8>, offset: int, length: int, size: nat) -> Seq<u8> {
    Seq::new(
        size,
        |p: int|
            if p < length && offset + p < data.len() {
                data[offset + p]
            } else {
                0
            },
    )
}

/// The contents of a recovery block, if they can be read.
pub open spec fn recovery_contents(
    block: RecoveryView,
    stores: Seq<StoredFile>,
    block_size: nat,
) -> Option<Seq<u8>> {
    match block.data {
        Some(data) => Some(filled(data, 0, data.len() as int, block_size)),
        None => match stored_at(stores, block.file_path, 0) {
            Some(file) => Some(
                filled(file, block.data_offset as int, block.data_length as int, block_size),
            ),
            None => None,
        },
    }
}

/// A recovery block, from memory or from the file where it is.
pub open spec fn recovery_source(
    block: RecoveryView,
    stores: Seq<StoredFile>,
    block_size: nat,
    unreadable: Seq<char>,
) -> Source {
    match recovery_contents(block, stores, block_size) {
        Some(data) => Source::Bytes(data),
        None => Source::Failure("Recovery block read failed: I/O error: "@ + unreadable),
    }
}

/// Why the first of the first `n` blocks that cannot be read cannot be read.
pub open spec fn first_failure(sources: Seq<Source>, n: nat) -> Option<Seq<char>>
    decreases n,
{
    if n == 0 {
        None
    } else {
        match first_failure(sources, (n - 1) as nat) {
            Some(m) => Some(m),
            None => match sources[n - 1] {
                Source::Failure(m) => Some(m),
                Source::Bytes(_) => None,
            },
        }
    }
}

/// The contents of blocks that are read.
pub open spec fn source_bytes(sources: Seq<Source>) -> Seq<Seq<u8>> {
    Seq::new(sources.len(), |i: int| sources[i]->Bytes_0)
}

/// Restored block `row`, as the row operations give it from recovery blocks and data blocks.
pub open spec fn restored_block(
    t: ReconstructionTransform,
    recovery: Seq<Source>,
    data: Seq<Source>,
    block_size: nat,
    row: int,
) -> Seq<u8> {
    bulk::word_bytes(
        reed_solomon::solved_words(
            t,
            creator::words_of_blocks(source_bytes(recovery)),
            creator::words_of_blocks(source_bytes(data)),
            row,
            block_size / 2,
        ),
    )
}

/// A chunk of a block.
pub open spec fn chunk(v: Seq<u8>, offset: int, size: int) -> Seq<u8> {
    v.subrange(offset, offset + size)
}

/// Row operations do not mix elements: restoring a chunk of all blocks gives a chunk of the restored
/// block.
pub proof fn law_chunks_are_independent(
    t: ReconstructionTransform,
    recovery: Seq<Seq<u8>>,
    data: Seq<Seq<u8>>,
    block_size: nat,
    offset: int,
    size: int,
    row: int,
    m: nat,
)
    requires
        block_size % 2 == 0,
        offset % 2 == 0,
        size % 2 == 0,
        0 <= offset,
        0 <= size,
        offset + size <= block_size,
        0 <= row < m,
        recovery.len() == m,
        t.fits(m, data.len()),
        sums::is_permutation(solver::indices(t.row_order@), m),
        forall|i: int| 0 <= i < recovery.len() ==> (#[trigger] recovery[i]).len() == block_size,
        forall|i: int| 0 <= i < data.len() ==> (#[trigger] data[i]).len() == block_size,
    ensures
        bulk::word_bytes(
            reed_solomon::solved_words(
                t,
                creator::words_of_blocks(Seq::new(m, |i: int| chunk(recovery[i], offset, size))),
                creator::words_of_blocks(
                    Seq::new(data.len(), |i: int| chunk(data[i], offset, size)),
                ),
                row,
                (size / 2) as nat,
            ),
        ) == chunk(
            bulk::word_bytes(
                reed_solomon::solved_words(
                    t,
                    creator::words_of_blocks(recovery),
                    creator::words_of_blocks(data),
                    row,
                    block_size / 2,
                ),
            ),
            offset,
            size,
        ),
{
    let rc = creator::words_of_blocks(Seq::new(m, |i: int| chunk(recovery[i], offset, size)));
    let dc = creator::words_of_blocks(Seq::new(data.len(), |i: int| chunk(data[i], offset, size)));
    let rw = creator::words_of_blocks(recovery);
    let dw = creator::words_of_blocks(data);
    let symbols = (size / 2) as nat;
    let part = reed_solomon::solved_words(t, rc, dc, row, symbols);
    let whole = reed_solomon::solved_words(t, rw, dw, row, block_size / 2);
    let first = offset / 2;
    let rows = solver::indices(t.row_order@);
    let coeffs = bulk::row_views(t.vandermonde_coeffs@);
    assert forall|s: int| 0 <= s < symbols implies #[trigger] part[s] == whole[first + s] by {
        let a = reed_solomon::right_hand_side(rows, coeffs, rc, dc, s);
        let b = reed_solomon::right_hand_side(rows, coeffs, rw, dw, first + s);
        assert forall|r: int| 0 <= r < m implies #[trigger] a[r] == b[r] by {
            let q = rows[r];
            assert(0 <= q < m);
            let x = chunk(recovery[q], offset, size);
            assert(recovery[q].len() == block_size);
            assert(rc[q] == bulk::words(x));
            assert(x[2 * s] == recovery[q][2 * (first + s)]);
            assert(x[2 * s + 1] == recovery[q][2 * (first + s) + 1]);
            assert(rc[q][s] == rw[q][first + s]);
            let f = reed_solomon::known_terms(coeffs, dc, q, s);
            let g = reed_solomon::known_terms(coeffs, dw, q, first + s);
            assert forall|c: int| 0 <= c < data.len() implies #[trigger] f(c) == g(c) by {
                let y = chunk(data[c], offset, size);
                assert(data[c].len() == block_size);
                assert(dc[c] == bulk::words(y));
                assert(y[2 * s] == data[c][2 * (first + s)]);
                assert(y[2 * s + 1] == data[c][2 * (first + s) + 1]);
                assert(dc[c][s] == dw[c][first + s]);
            }
            sums::lemma_sum_equal(f, g, data.len());
        }
        assert(a =~= b);
    }
    let x = bulk::word_bytes(part);
    let y = chunk(bulk::word_bytes(whole), offset, size);
    assert forall|i: int| 0 <= i < size implies x[i] == y[i] by {
        assert(part[i / 2] == whole[first + i / 2]);
        assert((offset + i) / 2 == first + i / 2);
        assert((offset + i) % 2 == i % 2);
    }
    assert(x =~= y);
}

/// Those of the first `n` data blocks that are not damaged.
pub open spec fn good_blocks(damaged: Seq<usize>, n: nat) -> Seq<usize>
    decreases n,
{
    if n == 0 {
        seq![]
    } else {
        let before = good_blocks(damaged, (n - 1) as nat);
        if damaged.contains((n - 1) as usize) {
            before
        } else {
            before.push((n - 1) as usize)
        }
    }
}

/// List the data blocks that are not damaged.
fn list_good(damaged: &Vec<usize>, total: usize) -> (r: Vec<usize>)
    ensures
        r@ == good_blocks(damaged@, total as nat),
        reed_solomon::are_data_indices(r@, total as nat),
{
    let mut flags: Vec<bool> = vec![false; total];
    let n: usize = damaged.len();
    for i in 0..n
        invariant
            n == damaged@.len(),
            flags@.len() == total,
            forall|b: int|
                0 <= b < total ==> (#[trigger] flags@[b] <==> exists|k: int|
                    0 <= k < i && #[trigger] damaged@[k] == b),
    {
        let ghost before = flags@;
        let b: usize = damaged[i];
        if b < total {
            flags[b] = true;
        }
        proof {
            assert forall|c: int| 0 <= c < total implies (#[trigger] flags@[c] <==> exists|k: int|
                0 <= k < i + 1 && #[trigger] damaged@[k] == c) by {
                if before[c] {
                    let k = choose|k: int| 0 <= k < i && #[trigger] damaged@[k] == c;
                    assert(damaged@[k] == c);
                }
                if c == b {
                    assert(damaged@[i as int] == c);
                }
                if exists|k: int| 0 <= k < i + 1 && #[trigger] damaged@[k] == c {
                    let k = choose|k: int| 0 <= k < i + 1 && #[trigger] damaged@[k] == c;
                    if k < i {
                        assert(before[c]);
                    }
                }
            }
        }
    }
    let mut r: Vec<usize> = Vec::new();
    assert(r@ =~= seq![]);
    for b in 0..total
        invariant
            n == damaged@.len(),
            flags@.len() == total,
            forall|c: int|
                0 <= c < total ==> (#[trigger] flags@[c] <==> exists|k: int|
                    0 <= k < n && #[trigger] damaged@[k] == c),
            r@ == good_blocks(damaged@, b as nat),
            reed_solomon::are_data_indices(r@, b as nat),
    {
        proof {
            if damaged@.contains(b) {
                let k = choose|k: int| 0 <= k < damaged@.len() && damaged@[k] == b;
                assert(damaged@[k] == b as int);
            }
            if flags@[b as int] {
                let k = choose|k: int| 0 <= k < n && #[trigger] damaged@[k] == b as int;
                assert(damaged@[k] == b);
            }
            assert(flags@[b as int] <==> damaged@.contains(b));
        }
        if !flags[b] {
            r.push(b);
        }
    }
    r
}

/// The owners of data blocks.
pub open spec fn owner_views(s: Seq<Option<(usize, usize)>>) -> Seq<Option<(int, int)>> {
    Seq::new(
        s.len(),
        |b: int|
            match s[b] {
                Some((f, j)) => Some((f as int, j as int)),
                None => None,
            },
    )
}

/// No file after file `f` has its ID.
fn comes_last(files: &Vec<FileInfo>, f: usize) -> (r: bool)
    requires
        f < files@.len(),
    ensures
        r == is_last(parser::file_views(files@), f as int),
{
    let ghost views = parser::file_views(files@);
    let n: usize = files.len();
    for g in f + 1..n
        invariant
            n == files@.len(),
            f < n,
            views == parser::file_views(files@),
            forall|k: int| f < k < g ==> (#[trigger] views[k]).file_id != views[f as int].file_id,
    {
        if crate::hash::same_digest(&files[g].file_id, &files[f].file_id) {
            assert(views[g as int].file_id == views[f as int].file_id);
            return false;
        }
    }
    true
}

/// Find the owners of all data blocks.
fn list_owners(files: &Vec<FileInfo>, block_size: u64) -> (r: Vec<Option<(usize, usize)>>)
    requires
        block_size > 0,
        creator::total_blocks(
            creator::lengths_of(parser::file_views(files@)),
            block_size as int,
        ) <= creator::MAX_BLOCKS,
    ensures
        owner_views(r@) == block_owners(
            parser::file_views(files@),
            block_size as int,
            files@.len(),
        ),
        r@.len() == creator::total_blocks(
            creator::lengths_of(parser::file_views(files@)),
            block_size as int,
        ),
        forall|b: int|
            0 <= b < r@.len() ==> (#[trigger] r@[b] matches Some((f, j)) ==> f < files@.len()),
{
    let ghost views = parser::file_views(files@);
    let ghost lengths = creator::lengths_of(views);
    let n: usize = files.len();
    let mut r: Vec<Option<(usize, usize)>> = Vec::new();
    proof {
        assert(owner_views(r@) =~= seq![]);
        assert(lengths.take(0) =~= seq![]);
    }
    for f in 0..n
        invariant
            block_size > 0,
            n == files@.len(),
            views == parser::file_views(files@),
            lengths == creator::lengths_of(views),
            creator::total_blocks(lengths, block_size as int) <= creator::MAX_BLOCKS,
            owner_views(r@) == block_owners(views, block_size as int, f as nat),
            r@.len() == creator::total_blocks(lengths.take(f as int), block_size as int),
            forall|b: int|
                0 <= b < r@.len() ==> (#[trigger] r@[b] matches Some((g, j)) ==> g < files@.len()),
    {
        let length: u64 = files[f].length;
        let count: u64 = blocks::count_blocks(length, block_size);
        let last: bool = comes_last(files, f);
        let ghost before = owner_views(r@);
        let ghost more = Seq::new(
            count as nat,
            |j: int|
                if is_last(views, f as int) {
                    Some((f as int, j))
                } else {
                    None
                },
        );
        proof {
            assert(views[f as int] == files@[f as int]@);
            assert(lengths.take(f + 1).drop_last() =~= lengths.take(f as int));
            assert(lengths.take(f + 1).last() == length);
            repair_plan::lemma_total_monotone(lengths, block_size as int, f + 1);
            assert(before + more.take(0) =~= before);
        }
        for j in 0..count as usize
            invariant
                f < n,
                n == files@.len(),
                count <= creator::MAX_BLOCKS,
                last == is_last(views, f as int),
                more == Seq::new(
                    count as nat,
                    |j: int|
                        if is_last(views, f as int) {
                            Some((f as int, j))
                        } else {
                            None
                        },
                ),
                owner_views(r@) == before + more.take(j as int),
                forall|b: int|
                    0 <= b < r@.len() ==> (#[trigger] r@[b] matches Some((g, i)) ==> g
                        < files@.len()),
        {
            let ghost prior = r@;
            let owner: Option<(usize, usize)> = if last {
                Some((f, j))
            } else {
                None
            };
            r.push(owner);
            proof {
                assert(owner_views(r@) =~= owner_views(prior).push(more[j as int]));
                assert(owner_views(r@) =~= before + more.take(j + 1));
            }
        }
        proof {
            assert(more.take(count as int) =~= more);
            assert(owner_views(r@) == before + more);
            assert(owner_views(r@).len() == r@.len());
        }
    }
    assert(lengths.take(n as int) =~= lengths);
    r
}

/// A repair that can begin: what is damaged, what it is restored from, and how.
pub struct Repair {
    pub block_size: usize,
    /// The data blocks that are restored.
    pub damaged: Vec<usize>,
    /// The data blocks that are not damaged.
    pub good: Vec<usize>,
    /// The recovery blocks that are used.
    pub recovery: Vec<RecoveryBlock>,
    /// Their numbers: they are counted after the data blocks.
    pub recovery_numbers: Vec<usize>,
    /// The file of each data block, and the number of the block in it.
    pub owners: Vec<Option<(usize, usize)>>,
    /// The code.
    pub rs: Par2ReedSolomon,
    /// The row operations.
    pub transform: ReconstructionTransform,
    /// What the system says of a file that cannot be read.
    pub unreadable: String,
}

/// The exponents of recovery blocks.
pub open spec fn exponents_of(blocks: Seq<RecoveryView>) -> Seq<nat> {
    Seq::new(blocks.len(), |i: int| blocks[i].exponent as nat)
}

/// The recovery blocks at some indices.
pub open spec fn chosen(blocks: Seq<RecoveryView>, used: Seq<usize>) -> Seq<RecoveryView> {
    Seq::new(used.len(), |i: int| blocks[used[i] as int])
}

/// The coefficients of the damaged blocks in the chosen recovery blocks.
pub open spec fn damage_matrix(par2: Par2File, plan: RepairPlan) -> Seq<Seq<u16>> {
    reed_solomon::vandermonde(
        reed_solomon::par2_constants(plan.total_blocks as nat),
        plan.damaged@,
        exponents_of(chosen(parser::recovery_views(par2.recovery_blocks@), plan.recovery@)),
    )
}

impl Repair {
    /// The repair is the one that the plan asks for.
    pub open spec fn is_for(&self, par2: Par2File, plan: RepairPlan) -> bool {
        let files = parser::file_views(par2.files_in_order@);
        let recovery = parser::recovery_views(self.recovery@);
        &&& self.block_size == par2.block_size
        &&& self.damaged@ == plan.damaged@
        &&& self.good@ == good_blocks(plan.damaged@, plan.total_blocks as nat)
        &&& recovery == chosen(parser::recovery_views(par2.recovery_blocks@), plan.recovery@)
        &&& owner_views(self.owners@) == block_owners(
            files,
            par2.block_size as int,
            files.len(),
        )
        &&& reconstruction::is_transform_for(
            self.transform,
            reed_solomon::par2_constants(plan.total_blocks as nat),
            plan.damaged@,
            self.good@,
            exponents_of(recovery),
        )
    }

    /// What is needed to read blocks of the files of `par2`.
    pub open spec fn wf(&self, par2: Par2File) -> bool {
        let files = parser::file_views(par2.files_in_order@);
        &&& self.block_size == par2.block_size
        &&& self.block_size > 0
        &&& self.block_size % 4 == 0
        &&& self.damaged@.len() > 0
        &&& self.recovery@.len() == self.damaged@.len()
        &&& self.recovery_numbers@.len() == self.damaged@.len()
        &&& reed_solomon::are_data_indices(self.good@, self.owners@.len())
        &&& owner_views(self.owners@) == block_owners(files, par2.block_size as int, files.len())
        &&& forall|b: int|
            0 <= b < self.owners@.len() ==> (#[trigger] self.owners@[b] matches Some((f, j)) ==> f
                < par2.files_in_order@.len())
        &&& self.transform.fits(self.damaged@.len(), self.good@.len())
        &&& sums::is_permutation(
            solver::indices(self.transform.row_order@),
            self.damaged@.len(),
        )
    }

    /// The recovery blocks, as they are read.
    pub open spec fn recovery_sources(&self, stores: Seq<StoredFile>) -> Seq<Source> {
        Seq::new(
            self.recovery@.len(),
            |i: int|
                recovery_source(
                    self.recovery@[i]@,
                    stores,
                    self.block_size as nat,
                    self.unreadable@,
                ),
        )
    }

    /// The data blocks that are not damaged, as they are read.
    pub open spec fn data_sources(
        &self,
        par2: Par2File,
        inputs: Map<Seq<u8>, Vec<u8>>,
    ) -> Seq<Source> {
        Seq::new(
            self.good@.len(),
            |i: int|
                data_source(
                    parser::file_views(par2.files_in_order@),
                    self.block_size as int,
                    inputs,
                    self.good@[i] as int,
                ),
        )
    }

    /// Why a block cannot be read, if one cannot: recovery blocks are read first.
    pub open spec fn failure(
        &self,
        par2: Par2File,
        inputs: Map<Seq<u8>, Vec<u8>>,
        stores: Seq<StoredFile>,
    ) -> Option<Seq<char>> {
        match first_failure(self.recovery_sources(stores), self.recovery@.len()) {
            Some(m) => Some(m),
            None => first_failure(self.data_sources(par2, inputs), self.good@.len()),
        }
    }

    /// Restored block `row`.
    pub open spec fn restored(
        &self,
        par2: Par2File,
        inputs: Map<Seq<u8>, Vec<u8>>,
        stores: Seq<StoredFile>,
        row: int,
    ) -> Seq<u8> {
        restored_block(
            self.transform,
            self.recovery_sources(stores),
            self.data_sources(par2, inputs),
            self.block_size as nat,
            row,
        )
    }

    /// Prepare the repair that a plan asks for. It is an error if the recovery blocks do not
    /// determine the damaged blocks.
    pub fn prepare(par2: &Par2File, plan: &RepairPlan, unreadable: &str) -> (r: Result<Repair>)
        requires
            0 < par2.block_size <= usize::MAX,
            par2.block_size % 4 == 0,
            plan.total_blocks == repair_plan::data_block_count(*par2),
            plan.total_blocks + plan.damaged@.len() <= creator::MAX_BLOCKS,
            plan.damaged@.len() > 0,
            plan.recovery@.len() == plan.damaged@.len(),
            reed_solomon::are_data_indices(plan.damaged@, plan.total_blocks as nat),
            forall|i: int|
                0 <= i < plan.recovery@.len() ==> #[trigger] plan.recovery@[i]
                    < par2.recovery_blocks@.len(),
        ensures
            if elimination::singular(damage_matrix(*par2, *plan), plan.damaged@.len()) {
                r matches Err(Par2Error::RepairFailed(m)) && m@
                    == "Failed to compute transformation: "@ + "Singular matrix"@
            } else {
                r matches Ok(repair) && repair.is_for(*par2, *plan) && repair.wf(*par2)
                    && repair.unreadable@ == unreadable@
            },
    {
        let m: usize = plan.damaged.len();
        let total: usize = plan.total_blocks;
        let ghost views = parser::recovery_views(par2.recovery_blocks@);
        let ghost used = chosen(views, plan.recovery@);
        let mut recovery: Vec<RecoveryBlock> = Vec::with_capacity(m);
        let mut exponents: Vec<u32> = Vec::with_capacity(m);
        let mut numbers: Vec<usize> = Vec::with_capacity(m);
        for i in 0..m
            invariant
                m == plan.recovery@.len(),
                m <= plan.recovery@.len(),
                total <= creator::MAX_BLOCKS,
                total + m <= usize::MAX,
                views == parser::recovery_views(par2.recovery_blocks@),
                used == chosen(views, plan.recovery@),
                forall|k: int|
                    0 <= k < plan.recovery@.len() ==> #[trigger] plan.recovery@[k]
                        < par2.recovery_blocks@.len(),
                recovery@.len() == i,
                exponents@.len() == i,
                numbers@.len() == i,
                forall|k: int| 0 <= k < i ==> (#[trigger] recovery@[k])@ == used[k],
                forall|k: int| 0 <= k < i ==> #[trigger] exponents@[k] == used[k].exponent,
                forall|k: int| 0 <= k < i ==> #[trigger] numbers@[k] == total + k,
        {
            assert(plan.recovery@[i as int] < par2.recovery_blocks@.len());
            let block: &RecoveryBlock = &par2.recovery_blocks[plan.recovery[i]];
            recovery.push(block.clone());
            exponents.push(block.exponent);
            numbers.push(total + i);
        }
        assert(parser::recovery_views(recovery@) =~= used);
        let good = list_good(&plan.damaged, total);
        let owners = list_owners(&par2.files_in_order, par2.block_size);
        let rs = Par2ReedSolomon::new(total, par2.recovery_blocks.len());
        proof {
            assert(exponents_of(used) =~= reed_solomon::used_exponents(
                total as nat,
                numbers@,
                exponents@,
                m as nat,
            ));
        }
        match rs.compute_reconstruction_transform(
            plan.damaged.as_slice(),
            good.as_slice(),
            numbers.as_slice(),
            exponents.as_slice(),
        ) {
            Ok(transform) => Ok(
                Repair {
                    block_size: par2.block_size as usize,
                    damaged: plan.damaged.clone(),
                    good,
                    recovery,
                    recovery_numbers: numbers,
                    owners,
                    rs,
                    transform,
                    unreadable: unreadable.to_owned(),
                },
            ),
            Err(e) => {
                let mut message: String = "Failed to compute transformation: ".to_owned();
                message.append(e.as_str());
                Err(Par2Error::RepairFailed(message))
            },
        }
    }
}

/// Find the first of some files at a path.
fn find_stored<'a>(stores: &'a [StoredFile], path: &String) -> (r: Option<&'a [u8]>)
    ensures
        match r {
            Some(data) => stored_at(stores@, path@, 0) == Some(data@),
            None => stored_at(stores@, path@, 0) is None,
        },
{
    let n: usize = stores.len();
    for i in 0..n
        invariant
            n == stores@.len(),
            stored_at(stores@, path@, 0) == stored_at(stores@, path@, i as int),
    {
        if stores[i].path == *path {
            return Some(stores[i].data.as_slice());
        }
    }
    None
}

/// Read a chunk of bytes that are filled up with zeros.
fn read_filled(
    data: &[u8],
    from: u64,
    length: u64,
    block_size: usize,
    offset: usize,
    size: usize,
) -> (r: Vec<u8>)
    requires
        offset + size <= block_size,
    ensures
        r@ == chunk(
            filled(data@, from as int, length as int, block_size as nat),
            offset as int,
            size as int,
        ),
{
    let n: usize = data.len();
    let mut r: Vec<u8> = Vec::with_capacity(size);
    let ghost whole = filled(data@, from as int, length as int, block_size as nat);
    for k in 0..size
        invariant
            n == data@.len(),
            offset + size <= block_size,
            whole == filled(data@, from as int, length as int, block_size as nat),
            r@.len() == k,
            forall|i: int| 0 <= i < k ==> #[trigger] r@[i] == whole[offset + i],
    {
        let p: usize = offset + k;
        let byte: u8 = if (p as u64) < length && from <= n as u64 && (p as u64) < n as u64 - from {
            data[from as usize + p]
        } else {
            0
        };
        assert(byte == whole[offset + k]);
        r.push(byte);
    }
    assert(r@ =~= chunk(whole, offset as int, size as int));
    r
}

/// What is read of a block.
pub open spec fn is_read(
    r: std::result::Result<Vec<u8>, String>,
    source: Source,
    offset: int,
    size: int,
) -> bool {
    match source {
        Source::Bytes(v) => r matches Ok(part) && part@ == chunk(v, offset, size),
        Source::Failure(m) => r matches Err(e) && e@ == m,
    }
}

/// Read a chunk of a recovery block.
fn read_recovery(
    block: &RecoveryBlock,
    stores: &[StoredFile],
    block_size: usize,
    unreadable: &str,
    offset: usize,
    size: usize,
) -> (r: std::result::Result<Vec<u8>, String>)
    requires
        offset + size <= block_size,
    ensures
        is_read(
            r,
            recovery_source(block@, stores@, block_size as nat, unreadable@),
            offset as int,
            size as int,
        ),
{
    match &block.data {
        Some(data) => {
            let length: u64 = data.len() as u64;
            Ok(read_filled(data.as_slice(), 0, length, block_size, offset, size))
        },
        None => match find_stored(stores, &block.file_path) {
            Some(file) => Ok(
                read_filled(file, block.data_offset, block.data_length, block_size, offset, size),
            ),
            None => {
                let mut message: String = "Recovery block read failed: I/O error: ".to_owned();
                message.append(unreadable);
                Err(message)
            },
        },
    }
}

/// Read a chunk of block `j` of a file.
fn read_file_chunk(data: &[u8], block_size: usize, j: usize, offset: usize, size: usize) -> (r: Vec<u8>)
    requires
        block_size > 0,
        offset + size <= block_size,
    ensures
        r@ == chunk(
            blocks::block_at(data@, block_size as nat, j as int),
            offset as int,
            size as int,
        ),
{
    let n: usize = data.len();
    let count: u64 = blocks::count_blocks(n as u64, block_size as u64);
    let ghost whole = blocks::block_at(data@, block_size as nat, j as int);
    proof {
        blocks::law_block_count(n as int, block_size as int, j as int);
    }
    if j as u64 >= count {
        let r: Vec<u8> = vec![0u8; size];
        assert(r@ =~= chunk(whole, offset as int, size as int));
        return r;
    }
    let start: usize = j * block_size;
    let mut r: Vec<u8> = Vec::with_capacity(size);
    for k in 0..size
        invariant
            n == data@.len(),
            start == j * block_size,
            start < n,
            offset + size <= block_size,
            whole == blocks::block_at(data@, block_size as nat, j as int),
            r@.len() == k,
            forall|i: int| 0 <= i < k ==> #[trigger] r@[i] == whole[offset + i],
    {
        let p: usize = offset + k;
        let byte: u8 = if p < n - start {
            data[start + p]
        } else {
            0
        };
        assert(byte == whole[offset + k]);
        r.push(byte);
    }
    assert(r@ =~= chunk(whole, offset as int, size as int));
    r
}

impl Repair {
    /// Read a chunk of a data block.
    fn read_data(
        &self,
        par2: &Par2File,
        inputs: &IdTable<Vec<u8>>,
        b: usize,
        offset: usize,
        size: usize,
    ) -> (r: std::result::Result<Vec<u8>, String>)
        requires
            self.wf(*par2),
            inputs.wf(),
            b < self.owners@.len(),
            offset + size <= self.block_size,
        ensures
            is_read(
                r,
                data_source(
                    parser::file_views(par2.files_in_order@),
                    self.block_size as int,
                    inputs@,
                    b as int,
                ),
                offset as int,
                size as int,
            ),
    {
        assert(owner_views(self.owners@)[b as int] == block_owners(
            parser::file_views(par2.files_in_order@),
            self.block_size as int,
            par2.files_in_order@.len(),
        )[b as int]);
        match self.owners[b] {
            Some((f, j)) => {
                assert(self.owners@[b as int] == Some((f, j)));
                let id: FileHash = par2.files_in_order[f].file_id;
                match inputs.get(&id) {
                    Some(data) => Ok(
                        read_file_chunk(data.as_slice(), self.block_size, j, offset, size),
                    ),
                    None => Err("Input file handle not found".to_owned()),
                }
            },
            None => {
                let mut message: String = "Block ".to_owned();
                message.append(text::decimal(b as u64).as_str());
                message.append(" not found in block_to_file map");
                Err(message)
            },
        }
    }
}

/// The chunks of a restored block that are written: for each damaged block its number, where in the
/// block the chunk starts, and the chunk.
pub type ChunkWrites = Vec<(usize, u64, Vec<u8>)>;

/// The size of a chunk that starts at `offset`: the last one may be shorter.
pub open spec fn size_at(block_size: int, chunk_size: int, offset: int) -> int {
    parser::least(block_size - offset, chunk_size)
}

proof fn lemma_no_failure(sources: Seq<Source>, n: nat)
    requires
        n <= sources.len(),
        first_failure(sources, n) is None,
    ensures
        forall|i: int| 0 <= i < n ==> #[trigger] sources[i] is Bytes,
    decreases n,
{
    if n > 0 {
        lemma_no_failure(sources, (n - 1) as nat);
    }
}

proof fn lemma_failure_stays(sources: Seq<Source>, n: nat, m: nat)
    requires
        n <= m,
        first_failure(sources, n) is Some,
    ensures
        first_failure(sources, m) == first_failure(sources, n),
    decreases m,
{
    if n < m {
        lemma_failure_stays(sources, n, (m - 1) as nat);
    }
}

/// The message for a block that cannot be read.
pub open spec fn failed_message(m: Seq<char>) -> Seq<char> {
    "Streaming RS reconstruction failed: "@ + m
}

fn failed<T>(e: String) -> (r: Result<T>)
    ensures
        r matches Err(Par2Error::RepairFailed(m)) && m@ == failed_message(e@),
{
    let mut message: String = "Streaming RS reconstruction failed: ".to_owned();
    message.append(e.as_str());
    Err(Par2Error::RepairFailed(message))
}

impl Repair {
    /// The chunks that are written for the chunk at `offset`.
    pub open spec fn are_writes(
        &self,
        w: Seq<(usize, u64, Vec<u8>)>,
        par2: Par2File,
        inputs: Map<Seq<u8>, Vec<u8>>,
        stores: Seq<StoredFile>,
        offset: int,
        size: int,
    ) -> bool {
        &&& w.len() == self.damaged@.len()
        &&& forall|i: int|
            0 <= i < w.len() ==> (#[trigger] w[i]).0 == self.damaged@[i] && w[i].1 == offset
                && w[i].2@ == chunk(self.restored(par2, inputs, stores, i), offset, size)
    }

    /// Read a chunk of all recovery blocks.
    fn read_all_recovery(&self, stores: &[StoredFile], offset: usize, size: usize) -> (r:
        std::result::Result<Vec<Vec<u8>>, String>)
        requires
            offset + size <= self.block_size,
        ensures
            match first_failure(self.recovery_sources(stores@), self.recovery@.len()) {
                Some(m) => r matches Err(e) && e@ == m,
                None => r matches Ok(list) && list@.len() == self.recovery@.len() && forall|i: int|
                    0 <= i < list@.len() ==> (#[trigger] list@[i])@ == chunk(
                        self.recovery_sources(stores@)[i]->Bytes_0,
                        offset as int,
                        size as int,
                    ),
            },
    {
        let ghost sources = self.recovery_sources(stores@);
        let n: usize = self.recovery.len();
        let mut list: Vec<Vec<u8>> = Vec::with_capacity(n);
        for i in 0..n
            invariant
                n == self.recovery@.len(),
                offset + size <= self.block_size,
                sources == self.recovery_sources(stores@),
                first_failure(sources, i as nat) is None,
                list@.len() == i,
                forall|k: int|
                    0 <= k < i ==> (#[trigger] list@[k])@ == chunk(
                        sources[k]->Bytes_0,
                        offset as int,
                        size as int,
                    ),
        {
            assert(sources[i as int] == recovery_source(
                self.recovery@[i as int]@,
                stores@,
                self.block_size as nat,
                self.unreadable@,
            ));
            match read_recovery(
                &self.recovery[i],
                stores,
                self.block_size,
                self.unreadable.as_str(),
                offset,
                size,
            ) {
                Ok(part) => {
                    list.push(part);
                },
                Err(e) => {
                    proof {
                        lemma_failure_stays(sources, (i + 1) as nat, n as nat);
                    }
                    return Err(e);
                },
            }
        }
        Ok(list)
    }

    /// Read a chunk of all data blocks that are not damaged.
    fn read_all_data(
        &self,
        par2: &Par2File,
        inputs: &IdTable<Vec<u8>>,
        offset: usize,
        size: usize,
    ) -> (r: std::result::Result<Vec<Vec<u8>>, String>)
        requires
            self.wf(*par2),
            inputs.wf(),
            offset + size <= self.block_size,
        ensures
            match first_failure(self.data_sources(*par2, inputs@), self.good@.len()) {
                Some(m) => r matches Err(e) && e@ == m,
                None => r matches Ok(list) && list@.len() == self.good@.len() && forall|i: int|
                    0 <= i < list@.len() ==> (#[trigger] list@[i])@ == chunk(
                        self.data_sources(*par2, inputs@)[i]->Bytes_0,
                        offset as int,
                        size as int,
                    ),
            },
    {
        let ghost sources = self.data_sources(*par2, inputs@);
        let n: usize = self.good.len();
        let mut list: Vec<Vec<u8>> = Vec::with_capacity(n);
        for i in 0..n
            invariant
                n == self.good@.len(),
                self.wf(*par2),
                inputs.wf(),
                offset + size <= self.block_size,
                sources == self.data_sources(*par2, inputs@),
                first_failure(sources, i as nat) is None,
                list@.len() == i,
                forall|k: int|
                    0 <= k < i ==> (#[trigger] list@[k])@ == chunk(
                        sources[k]->Bytes_0,
                        offset as int,
                        size as int,
                    ),
        {
            assert(self.good@[i as int] < self.owners@.len());
            assert(sources[i as int] == data_source(
                parser::file_views(par2.files_in_order@),
                self.block_size as int,
                inputs@,
                self.good@[i as int] as int,
            ));
            match self.read_data(par2, inputs, self.good[i], offset, size) {
                Ok(part) => {
                    list.push(part);
                },
                Err(e) => {
                    proof {
                        lemma_failure_stays(sources, (i + 1) as nat, n as nat);
                    }
                    return Err(e);
                },
            }
        }
        Ok(list)
    }

    /// Restore a chunk of all damaged blocks. `inputs` holds the contents of the files that are
    /// there by their IDs, `stores` the files that hold recovery blocks.
    pub fn process_chunk(
        &self,
        par2: &Par2File,
        inputs: &IdTable<Vec<u8>>,
        stores: &[StoredFile],
        chunk_idx: usize,
        chunk_size: usize,
    ) -> (r: Result<ChunkWrites>)
        requires
            self.wf(*par2),
            inputs.wf(),
            chunk_size % 2 == 0,
            chunk_idx * chunk_size < self.block_size,
        ensures
            match self.failure(*par2, inputs@, stores@) {
                Some(m) => r matches Err(Par2Error::RepairFailed(e)) && e@ == failed_message(m),
                None => r matches Ok(w) && self.are_writes(
                    w@,
                    *par2,
                    inputs@,
                    stores@,
                    chunk_idx * chunk_size,
                    size_at(
                        self.block_size as int,
                        chunk_size as int,
                        chunk_idx * chunk_size,
                    ),
                ),
            },
    {
        let offset: usize = chunk_idx * chunk_size;
        let size: usize = if self.block_size - offset <= chunk_size {
            self.block_size - offset
        } else {
            chunk_size
        };
        proof {
            let half = chunk_size as int / 2;
            assert(chunk_idx * chunk_size == 2 * (chunk_idx * half)) by (nonlinear_arith)
                requires
                    chunk_size == 2 * half,
            ;
        }
        let recovery: Vec<Vec<u8>> = match self.read_all_recovery(stores, offset, size) {
            Ok(list) => list,
            Err(e) => {
                return failed(e);
            },
        };
        let data: Vec<Vec<u8>> = match self.read_all_data(par2, inputs, offset, size) {
            Ok(list) => list,
            Err(e) => {
                return failed(e);
            },
        };
        let ghost m = self.damaged@.len();
        proof {
            self.lemma_chunks_sized(
                *par2,
                inputs@,
                stores@,
                recovery@,
                data@,
                offset as int,
                size as int,
            );
            self.lemma_rows_named();
        }
        match self.rs.reconstruct_streaming_chunk(
            self.damaged.as_slice(),
            self.good.as_slice(),
            self.recovery_numbers.as_slice(),
            &self.transform,
            size,
            recovery.as_slice(),
            data.as_slice(),
        ) {
            Ok(list) => {
                let writes = place_chunks(&list, offset);
                proof {
                    assert forall|i: int| 0 <= i < m implies (#[trigger] writes@[i]).2@ == chunk(
                        self.restored(*par2, inputs@, stores@, i),
                        offset as int,
                        size as int,
                    ) by {
                        self.lemma_chunk_restored(
                            *par2,
                            inputs@,
                            stores@,
                            recovery@,
                            data@,
                            offset as int,
                            size as int,
                            i,
                        );
                        assert(list@[i].1@ == writes@[i].2@);
                    }
                }
                Ok(writes)
            },
            Err(e) => failed(e),
        }
    }

    /// The chunks are those of the blocks that are read.
    spec fn are_chunks(
        &self,
        par2: Par2File,
        inputs: Map<Seq<u8>, Vec<u8>>,
        stores: Seq<StoredFile>,
        recovery: Seq<Vec<u8>>,
        data: Seq<Vec<u8>>,
        offset: int,
        size: int,
    ) -> bool {
        let rs = self.recovery_sources(stores);
        let ds = self.data_sources(par2, inputs);
        &&& first_failure(rs, self.recovery@.len()) is None
        &&& first_failure(ds, self.good@.len()) is None
        &&& recovery.len() == self.recovery@.len()
        &&& data.len() == self.good@.len()
        &&& forall|i: int|
            0 <= i < recovery.len() ==> (#[trigger] recovery[i])@ == chunk(
                rs[i]->Bytes_0,
                offset,
                size,
            )
        &&& forall|i: int|
            0 <= i < data.len() ==> (#[trigger] data[i])@ == chunk(ds[i]->Bytes_0, offset, size)
    }

    proof fn lemma_sources_sized(
        &self,
        par2: Par2File,
        inputs: Map<Seq<u8>, Vec<u8>>,
        stores: Seq<StoredFile>,
    )
        requires
            self.wf(par2),
            first_failure(self.recovery_sources(stores), self.recovery@.len()) is None,
            first_failure(self.data_sources(par2, inputs), self.good@.len()) is None,
        ensures
            source_bytes(self.recovery_sources(stores)).len() == self.damaged@.len(),
            source_bytes(self.data_sources(par2, inputs)).len() == self.good@.len(),
            forall|i: int|
                0 <= i < self.damaged@.len() ==> (#[trigger] source_bytes(
                    self.recovery_sources(stores),
                )[i]).len() == self.block_size,
            forall|i: int|
                0 <= i < self.good@.len() ==> (#[trigger] source_bytes(
                    self.data_sources(par2, inputs),
                )[i]).len() == self.block_size,
    {
        let rs = self.recovery_sources(stores);
        let ds = self.data_sources(par2, inputs);
        lemma_no_failure(rs, self.recovery@.len());
        lemma_no_failure(ds, self.good@.len());
        assert forall|i: int| 0 <= i < self.damaged@.len() implies (#[trigger] source_bytes(
            rs,
        )[i]).len() == self.block_size by {
            assert(rs[i] is Bytes);
        }
        assert forall|i: int| 0 <= i < self.good@.len() implies (#[trigger] source_bytes(
            ds,
        )[i]).len() == self.block_size by {
            assert(ds[i] is Bytes);
        }
    }

    proof fn lemma_chunks_sized(
        &self,
        par2: Par2File,
        inputs: Map<Seq<u8>, Vec<u8>>,
        stores: Seq<StoredFile>,
        recovery: Seq<Vec<u8>>,
        data: Seq<Vec<u8>>,
        offset: int,
        size: int,
    )
        requires
            self.wf(par2),
            self.are_chunks(par2, inputs, stores, recovery, data, offset, size),
            0 <= offset,
            0 <= size,
            offset + size <= self.block_size,
        ensures
            reed_solomon::chunks_sized(recovery, size as nat),
            reed_solomon::chunks_sized(data, size as nat),
    {
        self.lemma_sources_sized(par2, inputs, stores);
        let rb = source_bytes(self.recovery_sources(stores));
        let db = source_bytes(self.data_sources(par2, inputs));
        assert forall|i: int| 0 <= i < recovery.len() implies (#[trigger] recovery[i])@.len()
            == size by {
            assert(rb[i].len() == self.block_size);
        }
        assert forall|i: int| 0 <= i < data.len() implies (#[trigger] data[i])@.len() == size by {
            assert(db[i].len() == self.block_size);
        }
    }

    proof fn lemma_rows_named(&self)
        requires
            sums::is_permutation(
                solver::indices(self.transform.row_order@),
                self.damaged@.len(),
            ),
        ensures
            reed_solomon::all_named(self.transform.row_order@, self.damaged@.len()),
    {
        let m = self.damaged@.len();
        assert(self.damaged.len() == m);
        assert forall|i: int| 0 <= i < m implies #[trigger] self.transform.row_order@.contains(
            i as usize,
        ) by {
            let rows = solver::indices(self.transform.row_order@);
            sums::lemma_permutation_onto(rows, m, i);
            let k = choose|k: int| 0 <= k < m && #[trigger] rows[k] == i;
            assert(self.transform.row_order@[k] == i as usize);
        }
    }

    proof fn lemma_chunk_restored(
        &self,
        par2: Par2File,
        inputs: Map<Seq<u8>, Vec<u8>>,
        stores: Seq<StoredFile>,
        recovery: Seq<Vec<u8>>,
        data: Seq<Vec<u8>>,
        offset: int,
        size: int,
        i: int,
    )
        requires
            self.wf(par2),
            self.are_chunks(par2, inputs, stores, recovery, data, offset, size),
            0 <= offset,
            0 <= size,
            offset % 2 == 0,
            size % 2 == 0,
            offset + size <= self.block_size,
            0 <= i < self.damaged@.len(),
        ensures
            bulk::word_bytes(
                reed_solomon::solved_words(
                    self.transform,
                    reed_solomon::block_words(recovery),
                    reed_solomon::block_words(data),
                    i,
                    (size / 2) as nat,
                ),
            ) == chunk(self.restored(par2, inputs, stores, i), offset, size),
    {
        let m = self.damaged@.len();
        let rb = source_bytes(self.recovery_sources(stores));
        let db = source_bytes(self.data_sources(par2, inputs));
        self.lemma_sources_sized(par2, inputs, stores);
        law_chunks_are_independent(
            self.transform,
            rb,
            db,
            self.block_size as nat,
            offset,
            size,
            i,
            m,
        );
        assert(reed_solomon::block_words(recovery) =~= creator::words_of_blocks(
            Seq::new(m, |k: int| chunk(rb[k], offset, size)),
        ));
        assert(reed_solomon::block_words(data) =~= creator::words_of_blocks(
            Seq::new(db.len(), |k: int| chunk(db[k], offset, size)),
        ));
    }
}

/// Say where chunks are written.
fn place_chunks(list: &Vec<(usize, Vec<u8>)>, offset: usize) -> (writes: ChunkWrites)
    ensures
        writes@.len() == list@.len(),
        forall|k: int|
            0 <= k < list@.len() ==> (#[trigger] writes@[k]).0 == list@[k].0 && writes@[k].1
                == offset && writes@[k].2@ == list@[k].1@,
{
    let n: usize = list.len();
    let mut writes: ChunkWrites = Vec::with_capacity(n);
    for i in 0..n
        invariant
            n == list@.len(),
            writes@.len() == i,
            forall|k: int|
                0 <= k < i ==> (#[trigger] writes@[k]).0 == list@[k].0 && writes@[k].1 == offset
                    && writes@[k].2@ == list@[k].1@,
    {
        writes.push((list[i].0, offset as u64, list[i].1.clone()));
    }
    writes
}

/// There are more chunks of a block to restore as long as not all bytes are restored.
#[verifier::opaque]
pub open spec fn is_counted(block_size: int, chunk_size: int, chunks: int, done: int) -> bool {
    &&& chunks <= blocks::block_count(block_size, chunk_size)
    &&& chunks < blocks::block_count(block_size, chunk_size) <==> done < block_size
}

impl Repair {
    /// The restored blocks.
    pub open spec fn rows(
        &self,
        par2: Par2File,
        inputs: Map<Seq<u8>, Vec<u8>>,
        stores: Seq<StoredFile>,
    ) -> Seq<Seq<u8>> {
        Seq::new(self.damaged@.len(), |i: int| self.restored(par2, inputs, stores, i))
    }

    /// The first `done` bytes of all damaged blocks are restored, and a number of chunks was made for
    /// that.
    pub open spec fn are_restored_to(
        &self,
        rows: Seq<Vec<u8>>,
        par2: Par2File,
        inputs: Map<Seq<u8>, Vec<u8>>,
        stores: Seq<StoredFile>,
        chunk_size: usize,
        chunks: usize,
        done: usize,
    ) -> bool {
        &&& done <= self.block_size
        &&& done < self.block_size ==> done == chunks * chunk_size
        &&& chunks <= done
        &&& is_counted(self.block_size as int, chunk_size as int, chunks as int, done as int)
        &&& done > 0 ==> self.failure(par2, inputs, stores) is None
        &&& rows.len() == self.damaged@.len()
        &&& forall|i: int|
            0 <= i < rows.len() ==> (#[trigger] rows[i])@ == self.rows(par2, inputs, stores)[i].take(
                done as int,
            )
    }

    /// Begin with empty blocks.
    fn begin_rows(
        &self,
        par2: &Par2File,
        inputs: &IdTable<Vec<u8>>,
        stores: &[StoredFile],
        chunk_size: usize,
    ) -> (list: Vec<Vec<u8>>)
        requires
            self.block_size > 0,
            chunk_size > 0,
        ensures
            self.are_restored_to(list@, *par2, inputs@, stores@, chunk_size, 0, 0),
    {
        let ghost rows = self.rows(*par2, inputs@, stores@);
        let m: usize = self.damaged.len();
        proof {
            reveal(is_counted);
            blocks::law_block_count(self.block_size as int, chunk_size as int, 0);
        }
        let mut list: Vec<Vec<u8>> = Vec::with_capacity(m);
        for i in 0..m
            invariant
                list@.len() == i,
                forall|k: int| 0 <= k < i ==> (#[trigger] list@[k])@ == rows[k].take(0),
        {
            let row: Vec<u8> = Vec::new();
            assert(row@ =~= rows[i as int].take(0));
            list.push(row);
        }
        list
    }

    /// Restore the next chunk of all damaged blocks. Returns how many bytes of them are restored then.
    fn restore_chunk(
        &self,
        par2: &Par2File,
        inputs: &IdTable<Vec<u8>>,
        stores: &[StoredFile],
        chunk_size: usize,
        k: usize,
        done: usize,
        list: &mut Vec<Vec<u8>>,
    ) -> (r: Result<usize>)
        requires
            self.wf(*par2),
            inputs.wf(),
            chunk_size % 2 == 0,
            chunk_size > 0,
            done < self.block_size,
            self.are_restored_to(old(list)@, *par2, inputs@, stores@, chunk_size, k, done),
        ensures
            match self.failure(*par2, inputs@, stores@) {
                Some(m) => r matches Err(Par2Error::RepairFailed(e)) && e@ == failed_message(m),
                None => r matches Ok(now) && done < now && self.are_restored_to(
                    final(list)@,
                    *par2,
                    inputs@,
                    stores@,
                    chunk_size,
                    (k + 1) as usize,
                    now,
                ),
            },
    {
        let ghost rows = self.rows(*par2, inputs@, stores@);
        let m: usize = self.damaged.len();
        let size: usize = self.block_size;
        proof {
            assert forall|i: int| 0 <= i < m implies (#[trigger] rows[i]).len() == size by {
                assert(2 * (size as nat / 2) == size);
            }
        }
        let writes: ChunkWrites = match self.process_chunk(par2, inputs, stores, k, chunk_size) {
            Ok(writes) => writes,
            Err(e) => {
                return Err(e);
            },
        };
        let ghost part = size_at(size as int, chunk_size as int, done as int);
        for i in 0..m
            invariant
                m == self.damaged@.len(),
                rows == self.rows(*par2, inputs@, stores@),
                forall|j: int| 0 <= j < m ==> (#[trigger] rows[j]).len() == size,
                self.are_writes(writes@, *par2, inputs@, stores@, done as int, part),
                0 <= part,
                done + part <= size,
                list@.len() == m,
                forall|j: int| 0 <= j < i ==> (#[trigger] list@[j])@ == rows[j].take(done + part),
                forall|j: int|
                    i <= j < m ==> (#[trigger] list@[j])@ == rows[j].take(done as int),
        {
            assert(writes@[i as int].2@ == chunk(rows[i as int], done as int, part));
            assert(list@[i as int]@ == rows[i as int].take(done as int));
            assert(rows[i as int].len() == size);
            list[i].extend_from_slice(writes[i].2.as_slice());
            assert(list@[i as int]@ =~= rows[i as int].take(done + part));
        }
        proof {
            assert((k + 1) * chunk_size == k * chunk_size + chunk_size) by (nonlinear_arith);
            reveal(is_counted);
            blocks::law_block_count(size as int, chunk_size as int, k as int);
            blocks::law_block_count(size as int, chunk_size as int, k + 1);
        }
        if size - done <= chunk_size {
            Ok(size)
        } else {
            Ok(done + chunk_size)
        }
    }

    /// When all bytes are restored, so are the blocks.
    proof fn lemma_restored(
        &self,
        list: Seq<Vec<u8>>,
        par2: Par2File,
        inputs: Map<Seq<u8>, Vec<u8>>,
        stores: Seq<StoredFile>,
        chunk_size: usize,
        chunks: usize,
    )
        requires
            self.wf(par2),
            self.are_restored_to(
                list,
                par2,
                inputs,
                stores,
                chunk_size,
                chunks,
                self.block_size,
            ),
        ensures
            self.failure(par2, inputs, stores) is None,
            row_contents(list) == self.rows(par2, inputs, stores),
            forall|i: int| 0 <= i < list.len() ==> (#[trigger] list[i])@.len() == self.block_size,
    {
        let rows = self.rows(par2, inputs, stores);
        let size = self.block_size;
        assert forall|i: int| 0 <= i < list.len() implies #[trigger] list[i]@ == rows[i]
            && rows[i].len() == size by {
            assert(2 * (size as nat / 2) == size);
            assert(rows[i].take(size as int) =~= rows[i]);
        }
        assert(row_contents(list) =~= rows);
    }

    /// Restore all damaged blocks, chunk by chunk.
    pub fn restore_blocks(
        &self,
        par2: &Par2File,
        inputs: &IdTable<Vec<u8>>,
        stores: &[StoredFile],
        chunk_size: usize,
    ) -> (r: Result<Vec<Vec<u8>>>)
        requires
            self.wf(*par2),
            inputs.wf(),
            chunk_size % 2 == 0,
            chunk_size > 0,
        ensures
            match self.failure(*par2, inputs@, stores@) {
                Some(m) => r matches Err(Par2Error::RepairFailed(e)) && e@ == failed_message(m),
                None => r matches Ok(list) && row_contents(list@) == self.rows(
                    *par2,
                    inputs@,
                    stores@,
                ),
            },
    {
        let mut list = self.begin_rows(par2, inputs, stores, chunk_size);
        let mut k: usize = 0;
        let mut done: usize = 0;
        while done < self.block_size
            invariant
                self.wf(*par2),
                inputs.wf(),
                chunk_size % 2 == 0,
                chunk_size > 0,
                self.are_restored_to(list@, *par2, inputs@, stores@, chunk_size, k, done),
            decreases self.block_size - done,
        {
            match self.restore_chunk(par2, inputs, stores, chunk_size, k, done, &mut list) {
                Ok(now) => {
                    done = now;
                },
                Err(e) => {
                    return Err(e);
                },
            }
            k = k + 1;
        }
        proof {
            self.lemma_restored(list@, *par2, inputs@, stores@, chunk_size, k);
        }
        Ok(list)
    }
}

/// The contents of restored blocks.
pub open spec fn row_contents(rows: Seq<Vec<u8>>) -> Seq<Seq<u8>> {
    Seq::new(rows.len(), |i: int| rows[i]@)
}

/// The last of the first `n` damaged blocks that is block `b`.
pub open spec fn row_of(damaged: Seq<usize>, b: int, n: nat) -> Option<int>
    decreases n,
{
    if n == 0 {
        None
    } else if damaged[n - 1] == b {
        Some(n - 1)
    } else {
        row_of(damaged, b, (n - 1) as nat)
    }
}

/// What a file is made from: what is left of it, filled up with zeros or cut to its length.
pub open spec fn seed_of(original: Option<Seq<u8>>, length: nat) -> Seq<u8> {
    match original {
        Some(data) => filled(data, 0, data.len() as int, length),
        None => Seq::new(length, |q: int| 0u8),
    }
}

/// Byte `q` of a repaired file.
pub open spec fn repaired_byte(
    seed: Seq<u8>,
    range: Option<(int, int)>,
    damaged: Seq<usize>,
    rows: Seq<Seq<u8>>,
    block_size: int,
    q: int,
) -> u8 {
    match range {
        Some((start, count)) => if q / block_size < count {
            match row_of(damaged, start + q / block_size, damaged.len()) {
                Some(r) => rows[r][q % block_size],
                None => seed[q],
            }
        } else {
            seed[q]
        },
        None => seed[q],
    }
}

/// A repaired file: its damaged blocks are the restored ones.
pub open spec fn repaired_file(
    seed: Seq<u8>,
    range: Option<(int, int)>,
    damaged: Seq<usize>,
    rows: Seq<Seq<u8>>,
    block_size: int,
) -> Seq<u8> {
    Seq::new(
        seed.len(),
        |q: int| repaired_byte(seed, range, damaged, rows, block_size, q),
    )
}

fn find_row(damaged: &Vec<usize>, b: usize) -> (r: Option<usize>)
    ensures
        match r {
            Some(k) => row_of(damaged@, b as int, damaged@.len()) == Some(k as int) && k
                < damaged@.len(),
            None => row_of(damaged@, b as int, damaged@.len()) is None,
        },
{
    let mut n: usize = damaged.len();
    while n > 0
        invariant
            n <= damaged@.len(),
            row_of(damaged@, b as int, damaged@.len()) == row_of(damaged@, b as int, n as nat),
        decreases n,
    {
        if damaged[n - 1] == b {
            return Some(n - 1);
        }
        n = n - 1;
    }
    None
}

/// What a file is made from.
fn make_seed(original: Option<&Vec<u8>>, length: usize) -> (r: Vec<u8>)
    ensures
        r@ == seed_of(
            match original {
                Some(v) => Some(v@),
                None => None,
            },
            length as nat,
        ),
{
    match original {
        Some(data) => {
            let n: u64 = data.len() as u64;
            let r = read_filled(data.as_slice(), 0, n, length, 0, length);
            assert(r@ =~= filled(data@, 0, data@.len() as int, length as nat));
            r
        },
        None => {
            let r: Vec<u8> = vec![0u8; length];
            assert(r@ =~= seed_of(None, length as nat));
            r
        },
    }
}

/// Put a restored block into a file.
fn put_block(data: &mut Vec<u8>, block: &Vec<u8>, j: usize, block_size: usize)
    requires
        block@.len() == block_size,
        block_size > 0,
        j * block_size < old(data)@.len(),
    ensures
        final(data)@.len() == old(data)@.len(),
        forall|q: int|
            0 <= q < old(data)@.len() ==> #[trigger] final(data)@[q] == (if q / (block_size as int)
                == j {
                block@[q % (block_size as int)]
            } else {
                old(data)@[q]
            }),
{
    let n: usize = data.len();
    let start: usize = j * block_size;
    let count: usize = if n - start <= block_size {
        n - start
    } else {
        block_size
    };
    for k in 0..count
        invariant
            n == data@.len(),
            n == old(data)@.len(),
            start + count <= n,
            count <= block_size,
            block@.len() == block_size,
            forall|q: int|
                0 <= q < n ==> #[trigger] data@[q] == (if start <= q < start + k {
                    block@[q - start]
                } else {
                    old(data)@[q]
                }),
    {
        data[start + k] = block[k];
    }
    proof {
        assert forall|q: int| 0 <= q < n implies #[trigger] data@[q] == (if q / (block_size as int)
            == j {
            block@[q % (block_size as int)]
        } else {
            old(data)@[q]
        }) by {
            let a = q / (block_size as int);
            let z = q % (block_size as int);
            assert(q == a * block_size + z && 0 <= z < block_size && a >= 0) by (nonlinear_arith)
                requires
                    block_size > 0,
                    q >= 0,
                    a == q / (block_size as int),
                    z == q % (block_size as int),
            ;
            if a == j {
                assert(q - start == z);
            } else if a < j {
                assert(a * block_size + block_size <= j * block_size) by (nonlinear_arith)
                    requires
                        a + 1 <= j,
                        block_size > 0,
                ;
            } else {
                assert(j * block_size + block_size <= a * block_size) by (nonlinear_arith)
                    requires
                        j + 1 <= a,
                        block_size > 0,
                ;
            }
        }
    }
}

/// Put a repaired file together.
fn put_together(
    original: Option<&Vec<u8>>,
    length: usize,
    range: Option<(usize, usize)>,
    damaged: &Vec<usize>,
    rows: &Vec<Vec<u8>>,
    block_size: usize,
) -> (r: Vec<u8>)
    requires
        block_size > 0,
        rows@.len() == damaged@.len(),
        forall|i: int| 0 <= i < rows@.len() ==> (#[trigger] rows@[i])@.len() == block_size,
        range matches Some((start, count)) ==> start + count <= usize::MAX,
    ensures
        r@ == repaired_file(
            seed_of(
                match original {
                    Some(v) => Some(v@),
                    None => None,
                },
                length as nat,
            ),
            match range {
                Some((start, count)) => Some((start as int, count as int)),
                None => None,
            },
            damaged@,
            Seq::new(rows@.len(), |i: int| rows@[i]@),
            block_size as int,
        ),
{
    let mut data = make_seed(original, length);
    let ghost seed = data@;
    let ghost views = Seq::new(rows@.len(), |i: int| rows@[i]@);
    let ghost where_to: Option<(int, int)> = match range {
        Some((start, count)) => Some((start as int, count as int)),
        None => None,
    };
    let ghost size = block_size as int;
    let ghost want = repaired_file(seed, where_to, damaged@, views, size);
    if let Some((start, count)) = range {
        let whole: u64 = blocks::count_blocks(length as u64, block_size as u64);
        let n: usize = if whole < count as u64 {
            whole as usize
        } else {
            count
        };
        proof {
            assert forall|q: int| 0 <= q < length implies 0 <= #[trigger] (q / size) by {
                assert(q / size >= 0) by (nonlinear_arith)
                    requires
                        size > 0,
                        q >= 0,
                ;
            }
        }
        for j in 0..n
            invariant
                block_size > 0,
                size == block_size,
                rows@.len() == damaged@.len(),
                forall|i: int| 0 <= i < rows@.len() ==> (#[trigger] rows@[i])@.len() == block_size,
                start + count <= usize::MAX,
                n <= count,
                n <= whole,
                whole == blocks::block_count(length as int, size),
                seed.len() == length,
                data@.len() == length,
                views == Seq::new(rows@.len(), |i: int| rows@[i]@),
                where_to == Some((start as int, count as int)),
                want == repaired_file(seed, where_to, damaged@, views, size),
                forall|q: int|
                    0 <= q < length ==> #[trigger] data@[q] == (if q / size < j {
                        want[q]
                    } else {
                        seed[q]
                    }),
        {
            let ghost before = data@;
            proof {
                blocks::law_block_count(length as int, size, j as int);
            }
            match find_row(damaged, start + j) {
                Some(r) => {
                    put_block(&mut data, &rows[r], j, block_size);
                    assert(views[r as int] == rows@[r as int]@);
                },
                None => {},
            }
            assert forall|q: int| 0 <= q < length implies #[trigger] data@[q] == (if q / size
                < j + 1 {
                want[q]
            } else {
                seed[q]
            }) by {
                assert(before[q] == (if q / size < j {
                    want[q]
                } else {
                    seed[q]
                }));
            }
        }
        proof {
            assert forall|q: int| 0 <= q < length implies data@[q] == want[q] by {
                if q / size >= n {
                    if n < count {
                        assert(n == whole);
                        blocks::law_block_count(length as int, size, n as int);
                        assert(q < n * size);
                        assert(q / size < n) by (nonlinear_arith)
                            requires
                                size > 0,
                                0 <= q < n * size,
                        ;
                    }
                }
            }
        }
    }
    assert(data@ =~= want);
    data
}

/// A file that was repaired.
pub struct RepairedFile {
    pub file_id: FileHash,
    /// The name of the file.
    pub name: String,
    /// Its contents.
    pub data: Vec<u8>,
}

/// The file has to be repaired: it is missing or damaged, and known.
pub open spec fn is_wanted(par2: Par2File, result: VerificationResult, id: Seq<u8>) -> bool {
    &&& par2.files@.dom().contains(id)
    &&& parser::id_views(result.missing_files@).contains(id) || parser::id_views(
        result.damaged_files@,
    ).contains(id)
}

/// The contents of a repaired file, from restored blocks. A damaged file is made from what is left of
/// it.
pub open spec fn repaired_contents(
    par2: Par2File,
    result: VerificationResult,
    inputs: Map<Seq<u8>, Vec<u8>>,
    damaged: Seq<usize>,
    rows: Seq<Seq<u8>>,
    id: Seq<u8>,
) -> Seq<u8> {
    let files = parser::file_views(par2.files_in_order@);
    repaired_file(
        seed_of(
            if parser::id_views(result.damaged_files@).contains(id) {
                Some(inputs[id]@)
            } else {
                None
            },
            par2.files@[id].length as nat,
        ),
        repair_plan::range_of(files, par2.block_size as int, id, files.len()),
        damaged,
        rows,
        par2.block_size as int,
    )
}

/// The files are those that had to be repaired, each once, with the contents that the restored
/// blocks give.
pub open spec fn are_repaired(
    out: Seq<RepairedFile>,
    par2: Par2File,
    result: VerificationResult,
    inputs: Map<Seq<u8>, Vec<u8>>,
    damaged: Seq<usize>,
    rows: Seq<Seq<u8>>,
) -> bool {
    &&& forall|i: int|
        0 <= i < out.len() ==> {
            let id = (#[trigger] out[i]).file_id@;
            &&& is_wanted(par2, result, id)
            &&& out[i].name@ == par2.files@[id].name@
            &&& out[i].data@ == repaired_contents(par2, result, inputs, damaged, rows, id)
        }
    &&& forall|id: Seq<u8>|
        is_wanted(par2, result, id) ==> exists|i: int|
            0 <= i < out.len() && (#[trigger] out[i]).file_id@ == id
    &&& forall|i: int, j: int|
        0 <= i < j < out.len() ==> (#[trigger] out[i]).file_id@ != (#[trigger] out[j]).file_id@
}

/// A repaired file is what it should be.
pub open spec fn passes(par2: Par2File, id: Seq<u8>, data: Seq<u8>) -> bool {
    verify::is_valid(
        data,
        par2.files@[id]@,
        if par2.slice_checksums@.dom().contains(id) {
            Some(parser::checksum_views(par2.slice_checksums@[id]@))
        } else {
            None
        },
        par2.block_size as nat,
    )
}

/// All repaired files are what they should be.
pub open spec fn all_pass(
    par2: Par2File,
    result: VerificationResult,
    inputs: Map<Seq<u8>, Vec<u8>>,
    damaged: Seq<usize>,
    rows: Seq<Seq<u8>>,
) -> bool {
    forall|id: Seq<u8>| #[trigger]
        is_wanted(par2, result, id) ==> passes(
            par2,
            id,
            repaired_contents(par2, result, inputs, damaged, rows, id),
        )
}

/// All damaged files that are known can be read.
pub open spec fn damaged_are_there(
    par2: Par2File,
    result: VerificationResult,
    inputs: Map<Seq<u8>, Vec<u8>>,
) -> bool {
    forall|i: int|
        0 <= i < result.damaged_files@.len() && par2.files@.dom().contains(
            (#[trigger] result.damaged_files@[i])@,
        ) ==> inputs.dom().contains(result.damaged_files@[i]@)
}

fn contains_id(ids: &Vec<FileHash>, id: &FileHash) -> (r: bool)
    ensures
        r == parser::id_views(ids@).contains(id@),
{
    let ghost views = parser::id_views(ids@);
    let n: usize = ids.len();
    for i in 0..n
        invariant
            n == ids@.len(),
            views == parser::id_views(ids@),
            forall|k: int| 0 <= k < i ==> #[trigger] views[k] != id@,
    {
        if crate::hash::same_digest(&ids[i], id) {
            assert(views[i as int] == id@);
            return true;
        }
    }
    false
}

/// Whether all damaged files that are known can be read.
fn check_damaged(
    par2: &Par2File,
    result: &VerificationResult,
    inputs: &IdTable<Vec<u8>>,
) -> (r: bool)
    requires
        par2.files.wf(),
        inputs.wf(),
    ensures
        r == damaged_are_there(*par2, *result, inputs@),
{
    let n: usize = result.damaged_files.len();
    for i in 0..n
        invariant
            n == result.damaged_files@.len(),
            par2.files.wf(),
            inputs.wf(),
            forall|k: int|
                0 <= k < i && par2.files@.dom().contains((#[trigger] result.damaged_files@[k])@)
                    ==> inputs@.dom().contains(result.damaged_files@[k]@),
    {
        if par2.files.get(&result.damaged_files[i]).is_some() && inputs.get(
            &result.damaged_files[i],
        ).is_none() {
            return false;
        }
    }
    true
}

/// What is needed to put repaired files together.
spec fn can_assemble(
    par2: Par2File,
    result: VerificationResult,
    inputs: IdTable<Vec<u8>>,
    damaged: Seq<usize>,
    rows: Seq<Vec<u8>>,
) -> bool {
    &&& par2.files.wf()
    &&& par2.slice_checksums.wf()
    &&& inputs.wf()
    &&& damaged_are_there(par2, result, inputs@)
    &&& 0 < par2.block_size <= usize::MAX
    &&& creator::counting_error(
        creator::lengths_of(parser::file_views(par2.files_in_order@)),
        par2.block_size as int,
        0,
    ) is None
    &&& rows.len() == damaged.len()
    &&& forall|i: int| 0 <= i < rows.len() ==> (#[trigger] rows[i])@.len() == par2.block_size
    &&& forall|id: Seq<u8>| #[trigger]
        par2.files@.dom().contains(id) ==> par2.files@[id].length <= usize::MAX
}

/// Put together a file that has to be repaired.
fn assemble_file(
    par2: &Par2File,
    result: &VerificationResult,
    inputs: &IdTable<Vec<u8>>,
    damaged: &Vec<usize>,
    rows: &Vec<Vec<u8>>,
    id: &FileHash,
) -> (r: Option<RepairedFile>)
    requires
        can_assemble(*par2, *result, *inputs, damaged@, rows@),
    ensures
        r is Some <==> par2.files@.dom().contains(id@),
        r matches Some(file) ==> file.file_id@ == id@ && file.name@ == par2.files@[id@].name@
            && file.data@ == repaired_contents(
            *par2,
            *result,
            inputs@,
            damaged@,
            row_contents(rows@),
            id@,
        ),
{
    match par2.files.get(id) {
        Some(info) => {
            let is_damaged: bool = contains_id(&result.damaged_files, id);
            let original: Option<&Vec<u8>> = if is_damaged {
                proof {
                    let views = parser::id_views(result.damaged_files@);
                    let k = choose|k: int| 0 <= k < views.len() && views[k] == id@;
                    assert(result.damaged_files@[k]@ == id@);
                }
                inputs.get(id)
            } else {
                None
            };
            let range = repair_plan::find_range(&par2.files_in_order, par2.block_size, id);
            assert(par2.files@.dom().contains(id@));
            let data = put_together(
                original,
                info.length as usize,
                range,
                damaged,
                rows,
                par2.block_size as usize,
            );
            Some(RepairedFile { file_id: *id, name: info.name.clone(), data })
        },
        None => None,
    }
}

/// The files are those of the IDs that have come so far.
spec fn are_some(
    out: Seq<RepairedFile>,
    par2: Par2File,
    result: VerificationResult,
    inputs: Map<Seq<u8>, Vec<u8>>,
    damaged: Seq<usize>,
    rows: Seq<Seq<u8>>,
    so_far: Seq<Seq<u8>>,
) -> bool {
    &&& forall|i: int|
        0 <= i < out.len() ==> {
            let id = (#[trigger] out[i]).file_id@;
            &&& par2.files@.dom().contains(id)
            &&& so_far.contains(id)
            &&& out[i].name@ == par2.files@[id].name@
            &&& out[i].data@ == repaired_contents(par2, result, inputs, damaged, rows, id)
        }
    &&& forall|k: int|
        0 <= k < so_far.len() && par2.files@.dom().contains(#[trigger] so_far[k]) ==> exists|i: int|
            0 <= i < out.len() && (#[trigger] out[i]).file_id@ == so_far[k]
    &&& forall|i: int, j: int|
        0 <= i < j < out.len() ==> (#[trigger] out[i]).file_id@ != (#[trigger] out[j]).file_id@
}

fn has_file(out: &Vec<RepairedFile>, id: &FileHash) -> (r: bool)
    ensures
        r <==> exists|i: int| 0 <= i < out@.len() && (#[trigger] out@[i]).file_id@ == id@,
{
    let n: usize = out.len();
    for i in 0..n
        invariant
            n == out@.len(),
            forall|k: int| 0 <= k < i ==> (#[trigger] out@[k]).file_id@ != id@,
    {
        if crate::hash::same_digest(&out[i].file_id, id) {
            return true;
        }
    }
    false
}

/// Put together one more file, unless it has been put together.
fn assemble_one(
    out: &mut Vec<RepairedFile>,
    par2: &Par2File,
    result: &VerificationResult,
    inputs: &IdTable<Vec<u8>>,
    damaged: &Vec<usize>,
    rows: &Vec<Vec<u8>>,
    id: &FileHash,
    Ghost(so_far): Ghost<Seq<Seq<u8>>>,
)
    requires
        can_assemble(*par2, *result, *inputs, damaged@, rows@),
        are_some(
            old(out)@,
            *par2,
            *result,
            inputs@,
            damaged@,
            row_contents(rows@),
            so_far,
        ),
    ensures
        are_some(
            final(out)@,
            *par2,
            *result,
            inputs@,
            damaged@,
            row_contents(rows@),
            so_far.push(id@),
        ),
{
    let ghost before = out@;
    let ghost all = so_far.push(id@);
    let there: bool = has_file(out, id);
    if !there {
        if let Some(file) = assemble_file(par2, result, inputs, damaged, rows, id) {
            out.push(file);
        }
    }
    proof {
        assert(all[so_far.len() as int] == id@);
        assert forall|i: int| 0 <= i < out@.len() implies all.contains(
            (#[trigger] out@[i]).file_id@,
        ) by {
            if i < before.len() {
                assert(before[i] == out@[i]);
                let k = choose|k: int| 0 <= k < so_far.len() && so_far[k] == before[i].file_id@;
                assert(all[k] == out@[i].file_id@);
            }
        }
        assert forall|k: int|
            0 <= k < all.len() && par2.files@.dom().contains(#[trigger] all[k]) implies exists|
            i: int,
        |
            0 <= i < out@.len() && (#[trigger] out@[i]).file_id@ == all[k] by {
            if k < so_far.len() {
                assert(all[k] == so_far[k]);
                let i = choose|i: int|
                    0 <= i < before.len() && (#[trigger] before[i]).file_id@ == so_far[k];
                assert(out@[i].file_id@ == all[k]);
            } else if there {
                let i = choose|i: int|
                    0 <= i < before.len() && (#[trigger] before[i]).file_id@ == id@;
                assert(out@[i].file_id@ == all[k]);
            } else {
                assert(out@[before.len() as int].file_id@ == all[k]);
            }
        }
    }
}

/// Put together all files that have to be repaired.
fn assemble_files(
    par2: &Par2File,
    result: &VerificationResult,
    inputs: &IdTable<Vec<u8>>,
    damaged: &Vec<usize>,
    rows: &Vec<Vec<u8>>,
) -> (out: Vec<RepairedFile>)
    requires
        can_assemble(*par2, *result, *inputs, damaged@, rows@),
    ensures
        are_repaired(out@, *par2, *result, inputs@, damaged@, row_contents(rows@)),
{
    let ghost contents = row_contents(rows@);
    let ghost first = parser::id_views(result.missing_files@);
    let ghost second = parser::id_views(result.damaged_files@);
    let n: usize = result.missing_files.len();
    let m: usize = result.damaged_files.len();
    let mut out: Vec<RepairedFile> = Vec::new();
    let ghost mut so_far: Seq<Seq<u8>> = seq![];
    for i in 0..n
        invariant
            n == result.missing_files@.len(),
            contents == row_contents(rows@),
            first == parser::id_views(result.missing_files@),
            can_assemble(*par2, *result, *inputs, damaged@, rows@),
            so_far == first.take(i as int),
            are_some(out@, *par2, *result, inputs@, damaged@, contents, so_far),
    {
        assemble_one(
            &mut out,
            par2,
            result,
            inputs,
            damaged,
            rows,
            &result.missing_files[i],
            Ghost(so_far),
        );
        proof {
            so_far = so_far.push(result.missing_files@[i as int]@);
            assert(so_far =~= first.take(i + 1));
        }
    }
    assert(so_far + second.take(0) =~= so_far);
    assert(first.take(n as int) =~= first);
    for i in 0..m
        invariant
            m == result.damaged_files@.len(),
            contents == row_contents(rows@),
            second == parser::id_views(result.damaged_files@),
            can_assemble(*par2, *result, *inputs, damaged@, rows@),
            so_far == first + second.take(i as int),
            are_some(out@, *par2, *result, inputs@, damaged@, contents, so_far),
    {
        assemble_one(
            &mut out,
            par2,
            result,
            inputs,
            damaged,
            rows,
            &result.damaged_files[i],
            Ghost(so_far),
        );
        proof {
            so_far = so_far.push(result.damaged_files@[i as int]@);
            assert(so_far =~= first + second.take(i + 1));
        }
    }
    proof {
        assert(second.take(m as int) =~= second);
        assert(so_far == first + second);
        assert forall|i: int| 0 <= i < out@.len() implies is_wanted(
            *par2,
            *result,
            (#[trigger] out@[i]).file_id@,
        ) by {
            let id = out@[i].file_id@;
            let k = choose|k: int| 0 <= k < so_far.len() && so_far[k] == id;
            if k < first.len() {
                assert(first[k] == id);
            } else {
                assert(second[k - first.len()] == id);
            }
        }
        assert forall|id: Seq<u8>| is_wanted(*par2, *result, id) implies exists|i: int|
            0 <= i < out@.len() && (#[trigger] out@[i]).file_id@ == id by {
            if first.contains(id) {
                let k = choose|k: int| 0 <= k < first.len() && first[k] == id;
                assert(so_far[k] == id);
            } else {
                let k = choose|k: int| 0 <= k < second.len() && second[k] == id;
                assert(so_far[first.len() + k] == id);
            }
        }
    }
    out
}

/// Whether a repaired file is what it should be.
fn verify_repaired(par2: &Par2File, file: &RepairedFile) -> (r: bool)
    requires
        par2.files.wf(),
        par2.slice_checksums.wf(),
        0 < par2.block_size <= usize::MAX,
        par2.files@.dom().contains(file.file_id@),
        file.data@.len() == par2.files@[file.file_id@].length,
    ensures
        r == passes(*par2, file.file_id@, file.data@),
{
    match par2.files.get(&file.file_id) {
        Some(info) => {
            let checksums = verify::checksums_of(par2, &file.file_id);
            match verify::verify_reconstructed_file(
                file.name.as_str(),
                file.data.as_slice(),
                info,
                checksums,
                par2.block_size,
            ) {
                Ok(ok) => ok,
                Err(_) => false,
            }
        },
        None => false,
    }
}

/// If some repaired file is not what it should be, not all are.
proof fn lemma_one_fails(
    out: Seq<RepairedFile>,
    par2: Par2File,
    result: VerificationResult,
    inputs: Map<Seq<u8>, Vec<u8>>,
    damaged: Seq<usize>,
    rows: Seq<Seq<u8>>,
    i: int,
)
    requires
        are_repaired(out, par2, result, inputs, damaged, rows),
        0 <= i < out.len(),
        !passes(par2, out[i].file_id@, out[i].data@),
    ensures
        !all_pass(par2, result, inputs, damaged, rows),
{
    assert(is_wanted(par2, result, out[i].file_id@));
}

/// If each repaired file is what it should be, all are.
proof fn lemma_each_passes(
    out: Seq<RepairedFile>,
    par2: Par2File,
    result: VerificationResult,
    inputs: Map<Seq<u8>, Vec<u8>>,
    damaged: Seq<usize>,
    rows: Seq<Seq<u8>>,
)
    requires
        are_repaired(out, par2, result, inputs, damaged, rows),
        first_pass(out, par2, out.len() as int),
    ensures
        all_pass(par2, result, inputs, damaged, rows),
{
    assert forall|id: Seq<u8>| #[trigger] is_wanted(par2, result, id) implies passes(
        par2,
        id,
        repaired_contents(par2, result, inputs, damaged, rows, id),
    ) by {
        let i = choose|i: int| 0 <= i < out.len() && (#[trigger] out[i]).file_id@ == id;
        assert(passes(par2, out[i].file_id@, out[i].data@));
    }
}

/// The first `n` files are what they should be.
pub open spec fn first_pass(out: Seq<RepairedFile>, par2: Par2File, n: int) -> bool {
    forall|i: int| 0 <= i < n ==> passes(par2, (#[trigger] out[i]).file_id@, out[i].data@)
}

fn verification_failed() -> (r: Par2Error)
    ensures
        is_verification_failure(r),
{
    Par2Error::RepairFailed(
        "Repair completed but verification failed - files may still be damaged".to_owned(),
    )
}

/// A repaired file is not what it should be.
pub open spec fn is_verification_failure(e: Par2Error) -> bool {
    e matches Par2Error::RepairFailed(m) && m@
        == "Repair completed but verification failed - files may still be damaged"@
}

/// What comes of restored blocks: the repaired files, if all are what they should be.
pub open spec fn is_verified(
    r: Result<Vec<RepairedFile>>,
    par2: Par2File,
    result: VerificationResult,
    inputs: Map<Seq<u8>, Vec<u8>>,
    damaged: Seq<usize>,
    rows: Seq<Seq<u8>>,
) -> bool {
    if all_pass(par2, result, inputs, damaged, rows) {
        r matches Ok(out) && are_repaired(out@, par2, result, inputs, damaged, rows)
    } else {
        r matches Err(e) && is_verification_failure(e)
    }
}

/// The result of a repair that was prepared.
pub open spec fn is_outcome(
    r: Result<Vec<RepairedFile>>,
    repair: Repair,
    par2: Par2File,
    result: VerificationResult,
    inputs: Map<Seq<u8>, Vec<u8>>,
    stores: Seq<StoredFile>,
) -> bool {
    let rows = repair.rows(par2, inputs, stores);
    match repair.failure(par2, inputs, stores) {
        Some(m) => r matches Err(Par2Error::RepairFailed(e)) && e@ == failed_message(m),
        None => is_verified(r, par2, result, inputs, repair.damaged@, rows),
    }
}

/// What the machine offers for a repair.
pub struct RepairSettings {
    /// Number of CPUs.
    pub num_cpus: usize,
    /// The size of chunks that suits the instruction set.
    pub ideal_chunk_size: usize,
    /// The least size of chunks that is asked for.
    pub min_chunk: Option<usize>,
    /// What the system says of a file that cannot be read.
    pub unreadable: String,
}

impl RepairSettings {
    pub open spec fn wf(&self) -> bool {
        &&& self.num_cpus > 0
        &&& self.ideal_chunk_size > 0
        &&& self.ideal_chunk_size * self.num_cpus <= usize::MAX
        &&& self.num_cpus * 4 <= usize::MAX
    }

    /// The size of chunks for blocks of a size.
    pub open spec fn chunk_size(&self, block_size: int) -> int {
        chunks::chunk_size_for(
            block_size,
            self.num_cpus as int,
            self.ideal_chunk_size as int,
            self.min_chunk,
        )
    }
}

/// The blocks that have to be restored, and whether there are as many recovery blocks.
pub open spec fn can_begin(par2: Par2File, result: VerificationResult) -> bool {
    let needed = repair_plan::blocks_to_restore(par2, result).len();
    repair_plan::set_error(par2) is None && 0 < needed <= par2.recovery_blocks@.len()
}

/// What is needed to repair the files of a set.
pub open spec fn can_repair(
    par2: Par2File,
    result: VerificationResult,
    inputs: IdTable<Vec<u8>>,
    settings: RepairSettings,
) -> bool {
    &&& par2.files.wf()
    &&& par2.slice_checksums.wf()
    &&& result.block_damages.wf()
    &&& inputs.wf()
    &&& settings.wf()
    &&& forall|id: Seq<u8>| #[trigger]
        par2.files@.dom().contains(id) ==> par2.files@[id].length <= usize::MAX
    &&& repair_plan::set_error(par2) is None ==> repair_plan::numbers_fit(
        repair_plan::blocks_to_restore(par2, result),
    ) && repair_plan::are_numbered(par2, result)
}

/// The result of a repair that can begin.
pub open spec fn is_begun(
    r: Result<Vec<RepairedFile>>,
    par2: Par2File,
    result: VerificationResult,
    inputs: Map<Seq<u8>, Vec<u8>>,
    stores: Seq<StoredFile>,
    unreadable: Seq<char>,
) -> bool {
    exists|plan: RepairPlan|
        #[trigger] repair_plan::is_plan(plan, par2, result) && (if elimination::singular(
            damage_matrix(par2, plan),
            plan.damaged@.len(),
        ) {
            r matches Err(Par2Error::RepairFailed(m)) && m@ == "Failed to compute transformation: "@
                + "Singular matrix"@
        } else {
            exists|repair: Repair|
                #[trigger] repair.is_for(par2, plan) && repair.unreadable@ == unreadable
                    && is_outcome(
                    r,
                    repair,
                    par2,
                    result,
                    inputs,
                    stores,
                )
        })
}

/// The result of a repair, in the order of what can stop it: the set is not valid; there are not
/// enough recovery blocks; a damaged file cannot be read; the repair was cancelled. Where no block has
/// to be restored, missing files are empty: they are made from nothing. `unreadable` is what the system
/// says of a file that cannot be read.
pub open spec fn is_repair(
    r: Result<Vec<RepairedFile>>,
    par2: Par2File,
    result: VerificationResult,
    inputs: Map<Seq<u8>, Vec<u8>>,
    stores: Seq<StoredFile>,
    cancelled: bool,
    unreadable: Seq<char>,
) -> bool {
    let needed = repair_plan::blocks_to_restore(par2, result).len();
    let available = par2.recovery_blocks@.len();
    match repair_plan::set_error(par2) {
        Some(text) => r matches Err(Par2Error::InvalidFormat(m)) && m@ == text,
        None => if needed > available {
            r matches Err(e) && e == (Par2Error::InsufficientRecovery {
                needed: needed as usize,
                available: available as usize,
            })
        } else if !damaged_are_there(par2, result, inputs) {
            r matches Err(Par2Error::Io(m)) && m@ == unreadable
        } else if needed == 0 {
            is_verified(r, par2, result, inputs, seq![], seq![])
        } else if cancelled {
            r matches Err(Par2Error::Cancelled)
        } else {
            is_begun(r, par2, result, inputs, stores, unreadable)
        },
    }
}

/// How far a repair has come.
enum Stage {
    /// The blocks that are damaged are known.
    Planned,
    /// Blocks are being restored, chunk by chunk.
    Restoring { repair: Repair, rows: Vec<Vec<u8>>, chunks: usize, done: usize },
    /// The files are put together, and are being verified.
    Verifying { repair: Repair, files: Vec<RepairedFile>, verified: usize },
}

/// What a repair does, whatever it has come to.
struct Job {
    plan: RepairPlan,
    chunk_size: usize,
    /// Number of chunks of a block.
    chunks: usize,
    unreadable: String,
}

/// A repair that is under way. Nothing is written as long as it runs.
pub struct RepairRun {
    job: Job,
    stage: Stage,
}

/// What a step of a repair leads to.
pub enum Step {
    /// There is more to do.
    More(RepairRun),
    /// All files that had to be repaired, each verified.
    Finished(Vec<RepairedFile>),
    /// The repair has failed.
    Failed(Par2Error),
}

/// What a repair works on.
spec fn is_ready(par2: Par2File, result: VerificationResult, inputs: IdTable<Vec<u8>>) -> bool {
    &&& par2.files.wf()
    &&& par2.slice_checksums.wf()
    &&& inputs.wf()
    &&& repair_plan::set_error(par2) is None
    &&& damaged_are_there(par2, result, inputs@)
    &&& forall|id: Seq<u8>| #[trigger]
        par2.files@.dom().contains(id) ==> par2.files@[id].length <= usize::MAX
}

impl Job {
    /// The job is to repair the files of `par2`.
    spec fn is_for(&self, par2: Par2File, result: VerificationResult) -> bool {
        &&& repair_plan::is_plan(self.plan, par2, result)
        &&& repair_plan::are_numbered(par2, result)
        &&& self.plan.damaged@.len() > 0
        &&& self.chunk_size % 2 == 0
        &&& self.chunk_size > 0
        &&& self.chunks == blocks::block_count(par2.block_size as int, self.chunk_size as int)
    }

    /// The repair was prepared for the job.
    spec fn is_prepared(&self, repair: Repair, par2: Par2File) -> bool {
        &&& repair.is_for(par2, self.plan)
        &&& repair.wf(par2)
        &&& repair.unreadable@ == self.unreadable@
        &&& !elimination::singular(damage_matrix(par2, self.plan), self.plan.damaged@.len())
    }
}

impl RepairRun {
    /// A repair of the files of `par2`, with all that it has done so far.
    pub closed spec fn wf(
        &self,
        par2: Par2File,
        result: VerificationResult,
        inputs: IdTable<Vec<u8>>,
        stores: Seq<StoredFile>,
    ) -> bool {
        &&& is_ready(par2, result, inputs)
        &&& self.job.is_for(par2, result)
        &&& match self.stage {
            Stage::Planned => true,
            Stage::Restoring { repair, rows, chunks, done } => {
                &&& self.job.is_prepared(repair, par2)
                &&& repair.are_restored_to(
                    rows@,
                    par2,
                    inputs@,
                    stores,
                    self.job.chunk_size,
                    chunks,
                    done,
                )
            },
            Stage::Verifying { repair, files, verified } => {
                &&& self.job.is_prepared(repair, par2)
                &&& repair.failure(par2, inputs@, stores) is None
                &&& are_repaired(
                    files@,
                    par2,
                    result,
                    inputs@,
                    repair.damaged@,
                    repair.rows(par2, inputs@, stores),
                )
                &&& lengths_fit(files@, par2)
                &&& verified < files@.len()
                &&& first_pass(files@, par2, verified as int)
            },
        }
    }

    /// How many stages are still to come.
    pub closed spec fn stages_left(&self) -> nat {
        match self.stage {
            Stage::Planned => 2,
            Stage::Restoring { .. } => 1,
            Stage::Verifying { .. } => 0,
        }
    }

    /// How much is still to be done in this stage: the bytes to be restored of each block, or the files
    /// to be verified.
    pub closed spec fn left(&self) -> nat {
        match self.stage {
            Stage::Planned => 0,
            Stage::Restoring { repair, rows, chunks, done } => (repair.block_size - done) as nat,
            Stage::Verifying { repair, files, verified } => (files@.len() - verified) as nat,
        }
    }

    /// Number of chunks that were restored.
    pub closed spec fn chunks_done(&self) -> nat {
        match self.stage {
            Stage::Planned => 0,
            Stage::Restoring { repair, rows, chunks, done } => chunks as nat,
            Stage::Verifying { .. } => self.job.chunks as nat,
        }
    }

    /// Number of chunks to restore.
    pub closed spec fn chunks_total(&self) -> nat {
        self.job.chunks as nat
    }

    /// What the system says of a file that cannot be read.
    pub closed spec fn unreadable(&self) -> Seq<char> {
        self.job.unreadable@
    }

    /// The next step restores a chunk.
    pub open spec fn restores_next(&self) -> bool {
        self.stages_left() == 1 && self.chunks_done() < self.chunks_total()
    }
}

spec fn lengths_fit(files: Seq<RepairedFile>, par2: Par2File) -> bool {
    forall|i: int|
        0 <= i < files.len() ==> (#[trigger] files[i]).data@.len()
            == par2.files@[files[i].file_id@].length
}

/// A step of a run leads to a run that has come further, or to the result of the repair. Each step
/// that restores a chunk counts as one.
pub open spec fn is_step(
    step: Step,
    run: RepairRun,
    par2: Par2File,
    result: VerificationResult,
    inputs: IdTable<Vec<u8>>,
    stores: Seq<StoredFile>,
) -> bool {
    match step {
        Step::More(next) => {
            &&& next.wf(par2, result, inputs, stores)
            &&& next.stages_left() < run.stages_left() || (next.stages_left() == run.stages_left()
                && next.left() < run.left())
            &&& next.unreadable() == run.unreadable()
            &&& next.chunks_total() == run.chunks_total()
            &&& next.chunks_done() == run.chunks_done() + (if run.restores_next() {
                1nat
            } else {
                0nat
            })
        },
        Step::Finished(files) => run.chunks_done() == run.chunks_total() && is_begun(
            Ok(files),
            par2,
            result,
            inputs@,
            stores,
            run.unreadable(),
        ),
        Step::Failed(e) => is_begun(Err(e), par2, result, inputs@, stores, run.unreadable()),
    }
}

/// A run has restored no chunk at first, and never more than there are. When it verifies files it has
/// restored all.
pub proof fn law_progress_stays_in_its_bounds(
    run: RepairRun,
    par2: Par2File,
    result: VerificationResult,
    inputs: IdTable<Vec<u8>>,
    stores: Seq<StoredFile>,
)
    requires
        run.wf(par2, result, inputs, stores),
    ensures
        run.chunks_total() > 0,
        run.chunks_done() <= run.chunks_total(),
        run.stages_left() == 2 ==> run.chunks_done() == 0,
        run.stages_left() == 0 ==> run.chunks_done() == run.chunks_total(),
        run.stages_left() <= 2,
{
    reveal(is_counted);
    blocks::law_block_count(par2.block_size as int, run.job.chunk_size as int, 0);
}

proof fn lemma_outcome(
    r: Result<Vec<RepairedFile>>,
    repair: Repair,
    par2: Par2File,
    job: Job,
    result: VerificationResult,
    inputs: Map<Seq<u8>, Vec<u8>>,
    stores: Seq<StoredFile>,
)
    requires
        job.is_for(par2, result),
        job.is_prepared(repair, par2),
        is_outcome(r, repair, par2, result, inputs, stores),
    ensures
        is_begun(r, par2, result, inputs, stores, job.unreadable@),
{
    assert(repair.is_for(par2, job.plan));
}

/// Prepare to restore blocks.
fn step_from_plan(
    job: Job,
    par2: &Par2File,
    result: &VerificationResult,
    inputs: &IdTable<Vec<u8>>,
    stores: &[StoredFile],
) -> (r: Step)
    requires
        (RepairRun { job, stage: Stage::Planned }).wf(*par2, *result, *inputs, stores@),
    ensures
        is_step(
            r,
            (RepairRun { job, stage: Stage::Planned }),
            *par2,
            *result,
            *inputs,
            stores@,
        ),
{
    proof {
        repair_plan::lemma_plan(job.plan, *par2, *result);
    }
    match Repair::prepare(par2, &job.plan, job.unreadable.as_str()) {
        Ok(repair) => {
            let rows = repair.begin_rows(par2, inputs, stores, job.chunk_size);
            Step::More(
                RepairRun { job, stage: Stage::Restoring { repair, rows, chunks: 0, done: 0 } },
            )
        },
        Err(e) => Step::Failed(e),
    }
}

/// Restore one more chunk.
fn step_of_restoring(
    job: Job,
    repair: Repair,
    rows: Vec<Vec<u8>>,
    chunks: usize,
    done: usize,
    par2: &Par2File,
    result: &VerificationResult,
    inputs: &IdTable<Vec<u8>>,
    stores: &[StoredFile],
) -> (r: Step)
    requires
        (RepairRun { job, stage: Stage::Restoring { repair, rows, chunks, done } }).wf(
            *par2,
            *result,
            *inputs,
            stores@,
        ),
        done < repair.block_size,
    ensures
        is_step(
            r,
            (RepairRun { job, stage: Stage::Restoring { repair, rows, chunks, done } }),
            *par2,
            *result,
            *inputs,
            stores@,
        ),
{
    let mut now_rows = rows;
    proof {
        reveal(is_counted);
    }
    match repair.restore_chunk(
        par2,
        inputs,
        stores,
        job.chunk_size,
        chunks,
        done,
        &mut now_rows,
    ) {
        Ok(now) => Step::More(
            RepairRun {
                job,
                stage: Stage::Restoring { repair, rows: now_rows, chunks: chunks + 1, done: now },
            },
        ),
        Err(e) => {
            proof {
                lemma_outcome(Err(e), repair, *par2, job, *result, inputs@, stores@);
            }
            Step::Failed(e)
        },
    }
}

/// Put the files together.
fn step_to_files(
    job: Job,
    repair: Repair,
    rows: Vec<Vec<u8>>,
    chunks: usize,
    par2: &Par2File,
    result: &VerificationResult,
    inputs: &IdTable<Vec<u8>>,
    stores: &[StoredFile],
) -> (r: Step)
    requires
        (RepairRun {
            job,
            stage: Stage::Restoring { repair, rows, chunks, done: repair.block_size },
        }).wf(*par2, *result, *inputs, stores@),
    ensures
        is_step(
            r,
            (RepairRun {
                job,
                stage: Stage::Restoring { repair, rows, chunks, done: repair.block_size },
            }),
            *par2,
            *result,
            *inputs,
            stores@,
        ),
{
    let ghost contents = repair.rows(*par2, inputs@, stores@);
    proof {
        reveal(is_counted);
        repair.lemma_restored(rows@, *par2, inputs@, stores@, job.chunk_size, chunks);
    }
    let files = assemble_files(par2, result, inputs, &repair.damaged, &rows);
    if files.len() == 0 {
        proof {
            lemma_each_passes(files@, *par2, *result, inputs@, repair.damaged@, contents);
            lemma_outcome(Ok(files), repair, *par2, job, *result, inputs@, stores@);
        }
        return Step::Finished(files);
    }
    Step::More(RepairRun { job, stage: Stage::Verifying { repair, files, verified: 0 } })
}

/// Verify one more file.
fn step_of_verifying(
    job: Job,
    repair: Repair,
    files: Vec<RepairedFile>,
    verified: usize,
    par2: &Par2File,
    result: &VerificationResult,
    inputs: &IdTable<Vec<u8>>,
    stores: &[StoredFile],
) -> (r: Step)
    requires
        (RepairRun { job, stage: Stage::Verifying { repair, files, verified } }).wf(
            *par2,
            *result,
            *inputs,
            stores@,
        ),
    ensures
        is_step(
            r,
            (RepairRun { job, stage: Stage::Verifying { repair, files, verified } }),
            *par2,
            *result,
            *inputs,
            stores@,
        ),
{
    let ghost contents = repair.rows(*par2, inputs@, stores@);
    let total: usize = files.len();
    assert(is_wanted(*par2, *result, files@[verified as int].file_id@));
    if !verify_repaired(par2, &files[verified]) {
        let e = verification_failed();
        proof {
            lemma_one_fails(
                files@,
                *par2,
                *result,
                inputs@,
                repair.damaged@,
                contents,
                verified as int,
            );
            lemma_outcome(Err(e), repair, *par2, job, *result, inputs@, stores@);
        }
        return Step::Failed(e);
    }
    if verified + 1 == total {
        proof {
            lemma_each_passes(files@, *par2, *result, inputs@, repair.damaged@, contents);
            lemma_outcome(Ok(files), repair, *par2, job, *result, inputs@, stores@);
        }
        return Step::Finished(files);
    }
    Step::More(
        RepairRun { job, stage: Stage::Verifying { repair, files, verified: verified + 1 } },
    )
}

impl RepairRun {
    /// How many chunks were restored, and how many there are.
    pub fn progress(&self) -> (r: (u64, u64))
        ensures
            r.0 == self.chunks_done(),
            r.1 == self.chunks_total(),
    {
        let done: usize = match &self.stage {
            Stage::Planned => 0,
            Stage::Restoring { repair, rows, chunks, done } => *chunks,
            Stage::Verifying { repair, files, verified } => self.job.chunks,
        };
        (done as u64, self.job.chunks as u64)
    }

    /// Go on with a repair: prepare it, restore one more chunk of the damaged blocks, put the files
    /// together, or verify one more file. A repair that is cancelled ends at once, and nothing comes of
    /// it. Otherwise the run goes on to the result that it has when nothing cancels it.
    pub fn step(
        self,
        par2_data: &Par2File,
        verification_result: &VerificationResult,
        inputs: &IdTable<Vec<u8>>,
        stores: &[StoredFile],
        cancelled: bool,
    ) -> (r: Step)
        requires
            self.wf(*par2_data, *verification_result, *inputs, stores@),
        ensures
            if cancelled {
                r matches Step::Failed(Par2Error::Cancelled)
            } else {
                is_step(r, self, *par2_data, *verification_result, *inputs, stores@)
            },
    {
        if cancelled {
            return Step::Failed(Par2Error::Cancelled);
        }
        let RepairRun { job, stage } = self;
        match stage {
            Stage::Planned => step_from_plan(job, par2_data, verification_result, inputs, stores),
            Stage::Restoring { repair, rows, chunks, done } => if done < repair.block_size {
                step_of_restoring(
                    job,
                    repair,
                    rows,
                    chunks,
                    done,
                    par2_data,
                    verification_result,
                    inputs,
                    stores,
                )
            } else {
                step_to_files(
                    job,
                    repair,
                    rows,
                    chunks,
                    par2_data,
                    verification_result,
                    inputs,
                    stores,
                )
            },
            Stage::Verifying { repair, files, verified } => step_of_verifying(
                job,
                repair,
                files,
                verified,
                par2_data,
                verification_result,
                inputs,
                stores,
            ),
        }
    }
}

/// Make the files that need no blocks, and verify them.
fn repair_from_nothing(
    par2: &Par2File,
    result: &VerificationResult,
    inputs: &IdTable<Vec<u8>>,
) -> (r: Step)
    requires
        is_ready(*par2, *result, *inputs),
    ensures
        match r {
            Step::More(_) => false,
            Step::Finished(files) => is_verified(
                Ok(files),
                *par2,
                *result,
                inputs@,
                seq![],
                seq![],
            ),
            Step::Failed(e) => is_verified(Err(e), *par2, *result, inputs@, seq![], seq![]),
        },
{
    let damaged: Vec<usize> = Vec::new();
    let rows: Vec<Vec<u8>> = Vec::new();
    assert(damaged@ =~= seq![]);
    assert(row_contents(rows@) =~= seq![]);
    let files = assemble_files(par2, result, inputs, &damaged, &rows);
    let n: usize = files.len();
    for i in 0..n
        invariant
            n == files@.len(),
            is_ready(*par2, *result, *inputs),
            are_repaired(files@, *par2, *result, inputs@, seq![], seq![]),
            lengths_fit(files@, *par2),
            first_pass(files@, *par2, i as int),
    {
        assert(is_wanted(*par2, *result, files@[i as int].file_id@));
        if !verify_repaired(par2, &files[i]) {
            proof {
                lemma_one_fails(files@, *par2, *result, inputs@, seq![], seq![], i as int);
            }
            return Step::Failed(verification_failed());
        }
    }
    proof {
        lemma_each_passes(files@, *par2, *result, inputs@, seq![], seq![]);
    }
    Step::Finished(files)
}

/// Begin to repair the files of a set that are damaged or missing. If blocks have to be restored, and
/// can be, there is a run to go on with, and a message tells how many blocks are restored. Otherwise
/// the result is there at once.
pub fn begin_repair(
    par2_data: &Par2File,
    verification_result: &VerificationResult,
    inputs: &IdTable<Vec<u8>>,
    stores: &[StoredFile],
    settings: &RepairSettings,
) -> (r: (Step, Vec<Message>))
    requires
        can_repair(*par2_data, *verification_result, *inputs, *settings),
    ensures
        r.0 is More <==> can_begin(*par2_data, *verification_result) && damaged_are_there(
            *par2_data,
            *verification_result,
            inputs@,
        ),
        match r.0 {
            Step::More(run) => {
                &&& run.wf(*par2_data, *verification_result, *inputs, stores@)
                &&& run.unreadable() == settings.unreadable@
                &&& run.stages_left() == 2
                &&& run.chunks_done() == 0
                &&& run.chunks_total() == blocks::block_count(
                    par2_data.block_size as int,
                    settings.chunk_size(par2_data.block_size as int),
                )
            },
            Step::Finished(files) => forall|cancelled: bool| #[trigger]
                is_repair(
                    Ok(files),
                    *par2_data,
                    *verification_result,
                    inputs@,
                    stores@,
                    cancelled,
                    settings.unreadable@,
                ),
            Step::Failed(e) => forall|cancelled: bool| #[trigger]
                is_repair(
                    Err(e),
                    *par2_data,
                    *verification_result,
                    inputs@,
                    stores@,
                    cancelled,
                    settings.unreadable@,
                ),
        },
        messages::message_views(r.1@) == repair_messages(*par2_data, *verification_result),
{
    let mut list: Vec<Message> = Vec::new();
    assert(messages::message_views(list@) =~= seq![]);
    let plan: RepairPlan = match repair_plan::plan_repair(par2_data, verification_result) {
        Ok(plan) => plan,
        Err(e) => {
            return (Step::Failed(e), list);
        },
    };
    assert(solver::indices(plan.damaged@).len() == plan.damaged@.len());
    let needed: usize = plan.damaged.len();
    if needed > 0 {
        let mut text: String = "Repairing ".to_owned();
        text.append(text::decimal(needed as u64).as_str());
        text.append(" damaged blocks");
        list.push(Message { level: MessageLevel::Info, text });
        assert(messages::message_views(list@) =~= seq![(MessageLevel::Info, text@)]);
    }
    if !check_damaged(par2_data, verification_result, inputs) {
        return (Step::Failed(Par2Error::Io(settings.unreadable.clone())), list);
    }
    if needed == 0 {
        return (repair_from_nothing(par2_data, verification_result, inputs), list);
    }
    let chunk_size: usize = chunks::choose_chunk_size(
        par2_data.block_size as usize,
        settings.num_cpus,
        settings.ideal_chunk_size,
        settings.min_chunk,
    );
    let chunks: usize = blocks::count_blocks(
        par2_data.block_size,
        chunk_size as u64,
    ) as usize;
    let unreadable: String = settings.unreadable.clone();
    let job = Job { plan, chunk_size, chunks, unreadable };
    (Step::More(RepairRun { job, stage: Stage::Planned }), list)
}

/// What is told when a repair begins.
pub open spec fn repair_messages(par2: Par2File, result: VerificationResult) -> Seq<
    (MessageLevel, Seq<char>),
> {
    if can_begin(par2, result) {
        seq![
            (
                MessageLevel::Info,
                "Repairing "@ + text::decimal_digits(
                    repair_plan::blocks_to_restore(par2, result).len(),
                ) + " damaged blocks"@,
            ),
        ]
    } else {
        seq![]
    }
}

/// Repair the files of a set that are damaged or missing, from what is left of them, the files that
/// are not damaged, and the recovery blocks.
///
/// `inputs` holds the contents of the files that are there by their IDs, `stores` the files that hold
/// recovery blocks. The result holds the files that were repaired; each has passed verification. How
/// blocks are cut into chunks makes no difference to the result. A message tells how many blocks are
/// restored.
pub fn repair_files_with_messages(
    par2_data: &Par2File,
    verification_result: &VerificationResult,
    inputs: &IdTable<Vec<u8>>,
    stores: &[StoredFile],
    settings: &RepairSettings,
    cancelled: bool,
) -> (r: (Result<Vec<RepairedFile>>, Vec<Message>))
    requires
        can_repair(*par2_data, *verification_result, *inputs, *settings),
    ensures
        is_repair(
            r.0,
            *par2_data,
            *verification_result,
            inputs@,
            stores@,
            cancelled,
            settings.unreadable@,
        ),
        messages::message_views(r.1@) == repair_messages(*par2_data, *verification_result),
{
    let (begun, list) = begin_repair(par2_data, verification_result, inputs, stores, settings);
    let mut run: RepairRun = match begun {
        Step::More(run) => run,
        Step::Finished(files) => {
            assert(is_repair(
                Ok(files),
                *par2_data,
                *verification_result,
                inputs@,
                stores@,
                cancelled,
                settings.unreadable@,
            ));
            return (Ok(files), list);
        },
        Step::Failed(e) => {
            assert(is_repair(
                Err(e),
                *par2_data,
                *verification_result,
                inputs@,
                stores@,
                cancelled,
                settings.unreadable@,
            ));
            return (Err(e), list);
        },
    };
    loop
        invariant
            can_begin(*par2_data, *verification_result),
            damaged_are_there(*par2_data, *verification_result, inputs@),
            run.wf(*par2_data, *verification_result, *inputs, stores@),
            run.unreadable() == settings.unreadable@,
            messages::message_views(list@) == repair_messages(*par2_data, *verification_result),
        decreases run.stages_left(), run.left(),
    {
        match run.step(par2_data, verification_result, inputs, stores, cancelled) {
            Step::More(next) => {
                run = next;
            },
            Step::Finished(files) => {
                return (Ok(files), list);
            },
            Step::Failed(e) => {
                return (Err(e), list);
            },
        }
    }
}

/// Repair the files of a set that are damaged or missing, without messages.
pub fn repair_files_parallel(
    par2_data: &Par2File,
    verification_result: &VerificationResult,
    inputs: &IdTable<Vec<u8>>,
    stores: &[StoredFile],
    settings: &RepairSettings,
) -> (r: Result<Vec<RepairedFile>>)
    requires
        can_repair(*par2_data, *verification_result, *inputs, *settings),
    ensures
        is_repair(
            r,
            *par2_data,
            *verification_result,
            inputs@,
            stores@,
            false,
            settings.unreadable@,
        ),
{
    repair_files_with_messages(
        par2_data,
        verification_result,
        inputs,
        stores,
        settings,
        false,
    ).0
}

/// A step that restores a chunk counts as one chunk more, and no other step does; the number of all chunks
/// does not change.
pub proof fn law_steps_count_chunks(
    next: RepairRun,
    run: RepairRun,
    par2: Par2File,
    result: VerificationResult,
    inputs: IdTable<Vec<u8>>,
    stores: Seq<StoredFile>,
)
    requires
        run.wf(par2, result, inputs, stores),
        is_step(Step::More(next), run, par2, result, inputs, stores),
    ensures
        next.wf(par2, result, inputs, stores),
        next.chunks_total() == run.chunks_total(),
        next.chunks_done() == run.chunks_done() || next.chunks_done() == run.chunks_done() + 1,
        next.chunks_done() == run.chunks_done() + 1 <==> run.stages_left() == 1
            && run.chunks_done() < run.chunks_total(),
        next.stages_left() <= run.stages_left(),
{
}

} // verus!
