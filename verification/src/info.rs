//! What a PAR2 set protects, and how much of it can be restored, without a look at the protected
//! files.

use std::collections::HashSet;
use vstd::prelude::*;

use crate::blocks;
use crate::creator;
use crate::error::{Par2Error, Result};
use crate::loader;
use crate::loader::{Par2File, StoredFile};
use crate::parser;
use crate::parser::{FileView, RecoveryView};

verus! {

broadcast use vstd::std_specs::hash::group_hash_axioms;

/// A protected file.
#[derive(Debug)]
pub struct Par2FileEntry {
    /// The name of the file.
    pub name: String,
    /// The MD5 digest of the first 16 KiB, or of the whole file if it is smaller.
    pub hash_16k: [u8; 16],
    /// The MD5 digest of the file.
    pub hash: [u8; 16],
    /// The length of the file in bytes.
    pub length: u64,
}

/// What a PAR2 set protects.
#[derive(Debug)]
pub struct Par2Info {
    /// The size of a block in bytes.
    pub block_size: u64,
    /// The protected files, each once.
    pub files: Vec<Par2FileEntry>,
    /// The number of recovery blocks, those with the same exponent included.
    pub recovery_block_count: usize,
    /// The number of different exponents: as many data blocks can be restored.
    pub distinct_recovery_blocks: usize,
}

/// The entry is that of a file.
pub open spec fn is_entry(entry: Par2FileEntry, file: FileView) -> bool {
    &&& entry.name@ == file.name
    &&& entry.hash_16k@ == file.hash_16k
    &&& entry.hash@ == file.hash
    &&& entry.length == file.length
}

/// The exponents of the first `n` recovery blocks.
pub open spec fn exponent_set(blocks: Seq<RecoveryView>, n: nat) -> Set<u32>
    decreases n,
{
    if n == 0 {
        Set::empty()
    } else {
        exponent_set(blocks, (n - 1) as nat).insert(blocks[n - 1].exponent)
    }
}

/// The information is that about a set.
pub open spec fn is_about(info: Par2Info, par2: Par2File) -> bool {
    let recovery = parser::recovery_views(par2.recovery_blocks@);
    &&& info.block_size == par2.block_size
    &&& info.files@.len() == par2.files.entries@.len()
    &&& forall|i: int|
        0 <= i < info.files@.len() ==> is_entry(
            #[trigger] info.files@[i],
            par2.files.entries@[i].1@,
        )
    &&& info.recovery_block_count == recovery.len()
    &&& info.distinct_recovery_blocks == exponent_set(recovery, recovery.len()).len()
}

/// The number of data blocks of the first `n` files.
pub open spec fn blocks_of(files: Seq<Par2FileEntry>, block_size: int, n: nat) -> int
    decreases n,
{
    if n == 0 {
        0
    } else {
        blocks_of(files, block_size, (n - 1) as nat) + blocks::block_count(
            files[n - 1].length as int,
            block_size,
        )
    }
}

proof fn lemma_blocks_monotone(files: Seq<Par2FileEntry>, block_size: int, n: nat, m: nat)
    requires
        block_size > 0,
        n <= m,
    ensures
        0 <= blocks_of(files, block_size, n) <= blocks_of(files, block_size, m),
    decreases m,
{
    if m > 0 {
        blocks::law_block_count(files[m - 1].length as int, block_size, 0);
        lemma_blocks_monotone(
            files,
            block_size,
            if n < m {
                n
            } else {
                (m - 1) as nat
            },
            (m - 1) as nat,
        );
    }
}

impl Par2Info {
    /// Tell what a set that was loaded protects.
    pub fn of(par2: &Par2File) -> (r: Par2Info)
        ensures
            is_about(r, *par2),
    {
        let n: usize = par2.files.entries.len();
        let mut files: Vec<Par2FileEntry> = Vec::with_capacity(n);
        for i in 0..n
            invariant
                n == par2.files.entries@.len(),
                files@.len() == i,
                forall|k: int|
                    0 <= k < i ==> is_entry(#[trigger] files@[k], par2.files.entries@[k].1@),
        {
            let file = &par2.files.entries[i].1;
            files.push(
                Par2FileEntry {
                    name: file.name.clone(),
                    hash_16k: file.hash_16k,
                    hash: file.hash,
                    length: file.length,
                },
            );
        }
        let ghost recovery = parser::recovery_views(par2.recovery_blocks@);
        let m: usize = par2.recovery_blocks.len();
        let mut exponents: HashSet<u32> = HashSet::new();
        for i in 0..m
            invariant
                m == par2.recovery_blocks@.len(),
                recovery == parser::recovery_views(par2.recovery_blocks@),
                exponents@ == exponent_set(recovery, i as nat),
        {
            exponents.insert(par2.recovery_blocks[i].exponent);
        }
        Par2Info {
            block_size: par2.block_size,
            files,
            recovery_block_count: m,
            distinct_recovery_blocks: exponents.len(),
        }
    }

    /// Load a PAR2 set from the contents of a file and of the other PAR2 files beside it, and tell
    /// what it protects.
    pub fn load(path: &str, data: &[u8], volumes: &[StoredFile]) -> (r: Result<Par2Info>)
        ensures
            ({
                let st = loader::scan(data@, 0, path@, loader::nothing());
                match loader::load_error(data@, st) {
                    Some((true, text)) => r matches Err(Par2Error::InvalidFormat(m)) && m@ == text,
                    Some((false, text)) => r matches Err(Par2Error::RepairFailed(m)) && m@ == text,
                    None => r matches Ok(info) && exists|par2: Par2File|
                        #[trigger] loader::is_loaded(par2, data@, path@, volumes@, st)
                            && is_about(info, par2),
                }
            }),
    {
        match Par2File::load(path, data, volumes) {
            Ok(par2) => {
                let info = Par2Info::of(&par2);
                assert(loader::is_loaded(
                    par2,
                    data@,
                    path@,
                    volumes@,
                    loader::scan(data@, 0, path@, loader::nothing()),
                ));
                Ok(info)
            },
            Err(e) => Err(e),
        }
    }

    /// The number of data blocks of all protected files.
    pub fn total_data_blocks(&self) -> (r: u64)
        requires
            blocks_of(
                self.files@,
                creator::greatest(self.block_size as int, 1),
                self.files@.len(),
            ) <= u64::MAX,
        ensures
            r == blocks_of(
                self.files@,
                creator::greatest(self.block_size as int, 1),
                self.files@.len(),
            ),
    {
        let size: u64 = if self.block_size >= 1 {
            self.block_size
        } else {
            1
        };
        let n: usize = self.files.len();
        let mut total: u64 = 0;
        for i in 0..n
            invariant
                n == self.files@.len(),
                size > 0,
                blocks_of(self.files@, size as int, n as nat) <= u64::MAX,
                total == blocks_of(self.files@, size as int, i as nat),
        {
            let count: u64 = blocks::count_blocks(self.files[i].length, size);
            proof {
                lemma_blocks_monotone(self.files@, size as int, (i + 1) as nat, n as nat);
            }
            total = total + count;
        }
        total
    }

    /// Whether as many damaged data blocks can be restored.
    pub fn can_repair(&self, damaged_blocks: usize) -> (r: bool)
        ensures
            r == (damaged_blocks <= self.distinct_recovery_blocks),
    {
        damaged_blocks <= self.distinct_recovery_blocks
    }
}

/// The exponents that are counted are just those of the recovery blocks.
pub proof fn law_exponents_are_collected(blocks: Seq<RecoveryView>, n: nat, e: u32)
    requires
        n <= blocks.len(),
    ensures
        exponent_set(blocks, n).finite(),
        exponent_set(blocks, n).contains(e) <==> exists|i: int|
            0 <= i < n && (#[trigger] blocks[i]).exponent == e,
    decreases n,
{
    if n > 0 {
        law_exponents_are_collected(blocks, (n - 1) as nat, e);
        if exponent_set(blocks, n).contains(e) {
            if blocks[n - 1].exponent != e {
                let i = choose|i: int| 0 <= i < n - 1 && (#[trigger] blocks[i]).exponent == e;
                assert(0 <= i < n && blocks[i].exponent == e);
            }
        }
    }
}

/// Information on a set tells its block size, each of its files with its name, length and digests, the
/// number of its recovery blocks, and how many of them have different exponents.
pub proof fn law_information_is_that_of_the_set(info: Par2Info, par2: Par2File, i: int)
    requires
        is_about(info, par2),
    ensures
        info.block_size == par2.block_size,
        info.files@.len() == par2.files.entries@.len(),
        0 <= i < info.files@.len() ==> {
            let file = par2.files.entries@[i].1;
            &&& info.files@[i].name@ == file.name@
            &&& info.files@[i].length == file.length
            &&& info.files@[i].hash@ == file.hash@
            &&& info.files@[i].hash_16k@ == file.hash_16k@
        },
        info.recovery_block_count == par2.recovery_blocks@.len(),
        info.distinct_recovery_blocks == Set::new(
            |e: u32|
                exists|k: int|
                    0 <= k < par2.recovery_blocks@.len() && (
                    #[trigger] par2.recovery_blocks@[k]).exponent == e,
        ).len(),
{
    let blocks = parser::recovery_views(par2.recovery_blocks@);
    let n = blocks.len();
    let all = Set::new(
        |e: u32|
            exists|k: int|
                0 <= k < par2.recovery_blocks@.len() && (
                #[trigger] par2.recovery_blocks@[k]).exponent == e,
    );
    assert forall|e: u32| exponent_set(blocks, n).contains(e) <==> all.contains(e) by {
        law_exponents_are_collected(blocks, n, e);
        if exponent_set(blocks, n).contains(e) {
            let k = choose|k: int| 0 <= k < n && (#[trigger] blocks[k]).exponent == e;
            assert(par2.recovery_blocks@[k].exponent == e);
        }
        if all.contains(e) {
            let k = choose|k: int|
                0 <= k < par2.recovery_blocks@.len() && (
                #[trigger] par2.recovery_blocks@[k]).exponent == e;
            assert(blocks[k].exponent == e);
        }
    }
    assert(exponent_set(blocks, n) =~= all);
    if 0 <= i < info.files@.len() {
        assert(is_entry(info.files@[i], par2.files.entries@[i].1@));
    }
}

} // verus!
