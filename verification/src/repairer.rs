//! Verifying and repairing a set step by step: what to do next, and which PAR2 files to delete.

use vstd::prelude::*;
use vstd::string::*;

use crate::error::{Par2Error, Result};
use crate::hash::same_digest;
use crate::loader;
use crate::loader::StoredFile;
use crate::packets;
use crate::parser;
use crate::paths;
use crate::verify::VerificationResult;

verus! {

/// What is being done, for progress reports.
#[derive(Debug, Clone, Copy, PartialEq, Eq, Structural)]
pub enum Par2Operation {
    Scanning,
    Loading,
    Verifying,
    Repairing,
}

impl Par2Operation {
    /// The number of the operation.
    pub fn code(&self) -> (r: u8)
        ensures
            r == (match self {
                Par2Operation::Scanning => 0u8,
                Par2Operation::Loading => 1,
                Par2Operation::Verifying => 2,
                Par2Operation::Repairing => 3,
            }),
    {
        match self {
            Par2Operation::Scanning => 0,
            Par2Operation::Loading => 1,
            Par2Operation::Verifying => 2,
            Par2Operation::Repairing => 3,
        }
    }
}

/// What to do after the files were verified.
#[derive(Debug, Clone, Copy, PartialEq, Eq, Structural)]
pub enum NextStep {
    /// Repair the files.
    Repair,
    /// Repair the files; if that succeeds, delete the PAR2 files.
    RepairThenPurge,
    /// All is well: delete the PAR2 files.
    Purge,
    /// All is well.
    Finish,
}

/// Verifies and repairs the files of a set.
pub struct Par2Repairer {
    pub par2_file: String,
    /// The directory of the files.
    pub base_path: String,
}

impl Par2Repairer {
    /// Create a repairer for a PAR2 file. It is an error if there is no such file. The files of the
    /// set are in the directory of the PAR2 file. How a path that is not simple is taken apart
    /// depends on the operating system: the directory is then left open.
    pub fn new(par2_file: &str, exists: bool) -> (r: Result<Par2Repairer>)
        ensures
            r is Ok <==> exists,
            r matches Ok(repairer) ==> repairer.par2_file@ == par2_file@,
            r matches Ok(repairer) ==> paths::is_simple(par2_file@) ==> repairer.base_path@
                == paths::directory(par2_file@),
            r matches Err(e) ==> e == Par2Error::NotFound,
    {
        if !exists {
            return Err(Par2Error::NotFound);
        }
        let base_path: String = match paths::parent(par2_file) {
            Some(directory) => directory,
            None => ".".to_owned(),
        };
        Ok(Par2Repairer { par2_file: par2_file.to_owned(), base_path })
    }

    /// Decide what to do after the files were verified. It is an error if files are damaged or
    /// missing and repair was not asked for. PAR2 files are deleted, if that is asked for, when all
    /// files are intact or were repaired.
    pub fn repair_with_progress(
        &self,
        do_repair: bool,
        purge_files: bool,
        verification_result: &VerificationResult,
    ) -> (r: Result<NextStep>)
        ensures
            r is Err <==> !verification_result.all_verified && !do_repair,
            r matches Ok(step) ==> step == (if !verification_result.all_verified {
                if purge_files {
                    NextStep::RepairThenPurge
                } else {
                    NextStep::Repair
                }
            } else if purge_files {
                NextStep::Purge
            } else {
                NextStep::Finish
            }),
            r matches Err(e) ==> e matches Par2Error::RepairFailed(m) && m@
                == "Files are damaged and repair was not requested"@,
    {
        if verification_result.all_verified {
            if purge_files {
                Ok(NextStep::Purge)
            } else {
                Ok(NextStep::Finish)
            }
        } else if do_repair {
            if purge_files {
                Ok(NextStep::RepairThenPurge)
            } else {
                Ok(NextStep::Repair)
            }
        } else {
            Err(
                Par2Error::RepairFailed(
                    "Files are damaged and repair was not requested".to_owned(),
                ),
            )
        }
    }

    /// Decide what to do after the files were verified, when PAR2 files are kept.
    pub fn repair(&self, do_repair: bool, verification_result: &VerificationResult) -> (r: Result<
        NextStep,
    >)
        ensures
            r is Err <==> !verification_result.all_verified && !do_repair,
            r matches Ok(step) ==> step == (if verification_result.all_verified {
                NextStep::Finish
            } else {
                NextStep::Repair
            }),
            r matches Err(e) ==> e matches Par2Error::RepairFailed(m) && m@
                == "Files are damaged and repair was not requested"@,
    {
        self.repair_with_progress(do_repair, false, verification_result)
    }
}

/// Those of the first `n` files that belong to a recovery set.
pub open spec fn members(files: Seq<StoredFile>, set_id: Seq<u8>, n: nat) -> Seq<Seq<char>>
    decreases n,
{
    if n == 0 {
        seq![]
    } else {
        let before = members(files, set_id, (n - 1) as nat);
        if loader::belongs(files[n - 1].data@, set_id) {
            before.push(files[n - 1].path@)
        } else {
            before
        }
    }
}

/// Find the PAR2 files to delete: those of the same recovery set as `par2_data`. It is an error if
/// that is no PAR2 file.
pub fn files_to_purge(par2_data: &[u8], candidates: &[StoredFile]) -> (r: Result<Vec<String>>)
    ensures
        r is Ok <==> par2_data@.len() >= 64 && packets::has_magic(par2_data@, 0),
        r matches Ok(list) ==> Seq::new(list@.len(), |i: int| list@[i]@) == members(
            candidates@,
            packets::packet_set_id(par2_data@, 0),
            candidates@.len(),
        ),
        par2_data@.len() < 64 ==> (r matches Err(Par2Error::Io(m)) && m@
            == "failed to fill whole buffer"@),
        par2_data@.len() >= 64 && r is Err ==> (r matches Err(Par2Error::RepairFailed(m)) && m@
            == "Invalid PAR2 file"@),
{
    let set_id = match parser::get_recovery_set_id(par2_data) {
        Ok(id) => id,
        Err(e) => {
            return Err(e);
        },
    };
    let n: usize = candidates.len();
    let mut list: Vec<String> = Vec::new();
    assert(Seq::new(list@.len(), |i: int| list@[i]@) =~= members(candidates@, set_id@, 0));
    for i in 0..n
        invariant
            n == candidates@.len(),
            Seq::new(list@.len(), |k: int| list@[k]@) == members(
                candidates@,
                set_id@,
                i as nat,
            ),
    {
        let ghost before = list@;
        if let Ok(id) = parser::get_recovery_set_id(candidates[i].data.as_slice()) {
            if same_digest(&id, &set_id) {
                list.push(candidates[i].path.clone());
                assert(Seq::new(list@.len(), |k: int| list@[k]@) =~= Seq::new(
                    before.len(),
                    |k: int| before[k]@,
                ).push(candidates@[i as int].path@));
            }
        }
    }
    Ok(list)
}

/// The files that are deleted are just those that begin with the magic of a packet and name the recovery
/// set in its header.
pub proof fn law_files_of_the_set_are_purged(files: Seq<StoredFile>, set_id: Seq<u8>, n: nat, k: int)
    requires
        0 <= k < n <= files.len(),
        forall|j: int| 0 <= j < n && j != k ==> (#[trigger] files[j]).path@ != files[k].path@,
    ensures
        members(files, set_id, n).contains(files[k].path@) <==> files[k].data@.len() >= 64
            && files[k].data@.subrange(0, 8) == seq![
            0x50u8,
            0x41,
            0x52,
            0x32,
            0,
            0x50,
            0x4b,
            0x54,
        ] && files[k].data@.subrange(32, 48) == set_id,
        members(files, set_id, n).len() <= n,
    decreases n,
{
    let m = (n - 1) as nat;
    let before = members(files, set_id, m);
    let list = members(files, set_id, n);
    assert(packets::PAR2_MAGIC@ =~= seq![0x50u8, 0x41, 0x52, 0x32, 0, 0x50, 0x4b, 0x54]);
    lemma_members_are_files(files, set_id, m);
    if k < m {
        law_files_of_the_set_are_purged(files, set_id, m, k);
        assert(files[m as int].path@ != files[k].path@);
        if list.contains(files[k].path@) {
            let p = choose|p: int| 0 <= p < list.len() && list[p] == files[k].path@;
            assert(p < before.len());
            assert(before[p] == files[k].path@);
        }
        if before.contains(files[k].path@) {
            let p = choose|p: int| 0 <= p < before.len() && before[p] == files[k].path@;
            assert(list[p] == files[k].path@);
        }
    } else {
        if before.contains(files[k].path@) {
            let p = choose|p: int| 0 <= p < before.len() && before[p] == files[k].path@;
            let j = choose|j: int| 0 <= j < m && (#[trigger] files[j]).path@ == before[p];
            assert(files[j].path@ != files[k].path@);
        }
        if loader::belongs(files[k].data@, set_id) {
            assert(list[before.len() as int] == files[k].path@);
        }
    }
}

proof fn lemma_members_are_files(files: Seq<StoredFile>, set_id: Seq<u8>, n: nat)
    requires
        n <= files.len(),
    ensures
        members(files, set_id, n).len() <= n,
        forall|p: int|
            0 <= p < members(files, set_id, n).len() ==> exists|j: int|
                0 <= j < n && (#[trigger] files[j]).path@ == #[trigger] members(
                    files,
                    set_id,
                    n,
                )[p],
    decreases n,
{
    if n > 0 {
        let m = (n - 1) as nat;
        lemma_members_are_files(files, set_id, m);
        let before = members(files, set_id, m);
        let list = members(files, set_id, n);
        assert forall|p: int| 0 <= p < list.len() implies exists|j: int|
            0 <= j < n && (#[trigger] files[j]).path@ == #[trigger] list[p] by {
            if p < before.len() {
                let j = choose|j: int| 0 <= j < m && (#[trigger] files[j]).path@ == before[p];
                assert(files[j].path@ == list[p]);
            } else {
                assert(files[n - 1].path@ == list[p]);
            }
        }
    }
}

} // verus!
