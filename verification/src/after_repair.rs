//! After a repair all files are what they should be.

use vstd::prelude::*;

use crate::elimination;
use crate::error::Result;
use crate::loader::{Par2File, StoredFile};
use crate::repair;
use crate::repair::{Repair, RepairedFile};
use crate::repair_plan;
use crate::repair_plan::RepairPlan;
use crate::verify;
use crate::verify::{Case, FileState, VerificationResult};

verus! {

/// Each file that had to be repaired is there, and each file that is there is what it should be.
pub open spec fn all_are_repaired(
    out: Seq<RepairedFile>,
    par2: Par2File,
    result: VerificationResult,
) -> bool {
    &&& forall|k: int|
        0 <= k < out.len() ==> {
            let id = (#[trigger] out[k]).file_id@;
            &&& repair::is_wanted(par2, result, id)
            &&& out[k].data@.len() == par2.files@[id].length
            &&& repair::passes(par2, id, out[k].data@)
        }
    &&& forall|id: Seq<u8>| #[trigger]
        repair::is_wanted(par2, result, id) ==> exists|k: int|
            0 <= k < out.len() && (#[trigger] out[k]).file_id@ == id
}

proof fn lemma_repaired(
    out: Seq<RepairedFile>,
    par2: Par2File,
    result: VerificationResult,
    inputs: Map<Seq<u8>, Vec<u8>>,
    damaged: Seq<usize>,
    rows: Seq<Seq<u8>>,
)
    requires
        repair::are_repaired(out, par2, result, inputs, damaged, rows),
        repair::all_pass(par2, result, inputs, damaged, rows),
    ensures
        all_are_repaired(out, par2, result),
{
    assert forall|k: int| 0 <= k < out.len() implies {
        let id = (#[trigger] out[k]).file_id@;
        &&& repair::is_wanted(par2, result, id)
        &&& out[k].data@.len() == par2.files@[id].length
        &&& repair::passes(par2, id, out[k].data@)
    } by {
        assert(repair::is_wanted(par2, result, out[k].file_id@));
    }
}

/// A repair that succeeds gives back every file that had to be repaired, and each is what it should
/// be.
pub proof fn law_successful_repairs_are_complete(
    r: Result<Vec<RepairedFile>>,
    par2: Par2File,
    result: VerificationResult,
    inputs: Map<Seq<u8>, Vec<u8>>,
    stores: Seq<StoredFile>,
    cancelled: bool,
    unreadable: Seq<char>,
)
    requires
        repair::is_repair(r, par2, result, inputs, stores, cancelled, unreadable),
        r is Ok,
    ensures
        all_are_repaired(r->Ok_0@, par2, result),
{
    let out = r->Ok_0@;
    if repair_plan::blocks_to_restore(par2, result).len() == 0 {
        lemma_repaired(out, par2, result, inputs, seq![], seq![]);
    } else {
        assert(repair::is_begun(r, par2, result, inputs, stores, unreadable));
        let plan = choose|plan: RepairPlan|
            #[trigger] repair_plan::is_plan(plan, par2, result) && !elimination::singular(
                repair::damage_matrix(par2, plan),
                plan.damaged@.len(),
            ) && exists|repair: Repair|
                #[trigger] repair.is_for(par2, plan) && repair.unreadable@ == unreadable
                    && repair::is_outcome(
                    r,
                    repair,
                    par2,
                    result,
                    inputs,
                    stores,
                );
        let repair = choose|repair: Repair|
            #[trigger] repair.is_for(par2, plan) && repair.unreadable@ == unreadable
                    && repair::is_outcome(
                r,
                repair,
                par2,
                result,
                inputs,
                stores,
            );
        let rows = repair.rows(par2, inputs, stores);
        lemma_repaired(out, par2, result, inputs, repair.damaged@, rows);
    }
}

proof fn lemma_damaged_is_listed(c: Case, i: int, n: nat)
    requires
        0 <= i < n,
        c.state(i) == FileState::Damaged,
    ensures
        c.damaged(n).contains(c.ids[i]),
    decreases n,
{
    let list = c.damaged(n);
    if i == n - 1 {
        assert(list[list.len() - 1] == c.ids[i]);
    } else {
        let before = c.damaged((n - 1) as nat);
        lemma_damaged_is_listed(c, i, (n - 1) as nat);
        let k = choose|k: int| 0 <= k < before.len() && before[k] == c.ids[i];
        assert(list[k] == c.ids[i]);
    }
}

proof fn lemma_missing_is_listed(c: Case, i: int, n: nat)
    requires
        0 <= i < n,
        c.place(i, c.extra.len()) is None,
    ensures
        c.missing(n).contains(c.ids[i]),
    decreases n,
{
    let list = c.missing(n);
    if i == n - 1 {
        assert(list[list.len() - 1] == c.ids[i]);
    } else {
        let before = c.missing((n - 1) as nat);
        lemma_missing_is_listed(c, i, (n - 1) as nat);
        let k = choose|k: int| 0 <= k < before.len() && before[k] == c.ids[i];
        assert(list[k] == c.ids[i]);
    }
}

proof fn lemma_all_good(c: Case, n: nat)
    requires
        n <= c.ids.len(),
        forall|i: int| 0 <= i < c.ids.len() ==> #[trigger] c.state(i) == FileState::Good,
    ensures
        c.damaged(n).len() == 0,
        c.missing(n).len() == 0,
    decreases n,
{
    if n > 0 {
        lemma_all_good(c, (n - 1) as nat);
        assert(c.state(n - 1) == FileState::Good);
    }
}

/// The contents with which file `i` was found.
pub open spec fn found_contents(c: Case, i: int) -> Seq<u8> {
    if c.state(i) == FileState::Absent {
        c.extra[c.finder(i, c.extra.len())->Some_0].data@
    } else {
        c.named[c.ids[i]].data@
    }
}

/// There is a file with these contents under the name of the file with this ID.
pub open spec fn is_there(
    named: Map<Seq<u8>, StoredFile>,
    id: Seq<u8>,
    data: Seq<u8>,
) -> bool {
    named.dom().contains(id) && named[id].data@ == data
}

/// The files are in place under their names: those that were repaired, and those that were found and
/// are not damaged.
pub open spec fn are_in_place(
    named: Map<Seq<u8>, StoredFile>,
    out: Seq<RepairedFile>,
    c: Case,
) -> bool {
    &&& forall|k: int|
        0 <= k < out.len() ==> is_there(named, (#[trigger] out[k]).file_id@, out[k].data@)
    &&& forall|i: int|
        0 <= i < c.ids.len() && c.place(i, c.extra.len()) is Some && c.state(i)
            != FileState::Damaged ==> is_there(named, #[trigger] c.ids[i], found_contents(c, i))
}

proof fn lemma_good_after(
    out: Seq<RepairedFile>,
    par2: Par2File,
    result: VerificationResult,
    c: Case,
    later: Case,
    i: int,
)
    requires
        par2.files.wf(),
        c == verify::case_of(par2, c.named, c.extra),
        later == verify::case_of(par2, later.named, later.extra),
        verify::is_result(result, c),
        all_are_repaired(out, par2, result),
        are_in_place(later.named, out, c),
        0 <= i < c.ids.len(),
    ensures
        later.state(i) == FileState::Good,
{
    let id = c.ids[i];
    par2.files.lemma_entry(i);
    assert(later.ids[i] == id);
    assert(c.files[i] == par2.files@[id]@);
    let n = c.ids.len();
    if c.state(i) == FileState::Damaged || c.place(i, c.extra.len()) is None {
        if c.state(i) == FileState::Damaged {
            lemma_damaged_is_listed(c, i, n);
        } else {
            lemma_missing_is_listed(c, i, n);
        }
        assert(repair::is_wanted(par2, result, id));
        let k = choose|k: int| 0 <= k < out.len() && (#[trigger] out[k]).file_id@ == id;
        assert(is_there(later.named, out[k].file_id@, out[k].data@));
        assert(repair::passes(par2, id, out[k].data@));
        assert(later.fits(i, out[k].data@));
    } else {
        verify::law_found_files_fit(c, i, c.extra.len());
        assert(is_there(later.named, c.ids[i], found_contents(c, i)));
        assert(c.fits(i, found_contents(c, i)));
        assert(later.fits(i, found_contents(c, i)));
    }
}

/// When a repair has succeeded and its files are in place, with those that were found, another
/// verification finds nothing damaged and nothing missing.
pub proof fn law_repaired_files_verify(
    r: Result<Vec<RepairedFile>>,
    par2: Par2File,
    result: VerificationResult,
    named: Map<Seq<u8>, StoredFile>,
    extra: Seq<StoredFile>,
    inputs: Map<Seq<u8>, Vec<u8>>,
    stores: Seq<StoredFile>,
    cancelled: bool,
    unreadable: Seq<char>,
    later_named: Map<Seq<u8>, StoredFile>,
    later_extra: Seq<StoredFile>,
    later_result: VerificationResult,
)
    requires
        par2.files.wf(),
        verify::is_result(result, verify::case_of(par2, named, extra)),
        repair::is_repair(r, par2, result, inputs, stores, cancelled, unreadable),
        r is Ok,
        are_in_place(later_named, r->Ok_0@, verify::case_of(par2, named, extra)),
        verify::is_result(later_result, verify::case_of(par2, later_named, later_extra)),
    ensures
        later_result.all_verified,
{
    let c = verify::case_of(par2, named, extra);
    let later = verify::case_of(par2, later_named, later_extra);
    law_successful_repairs_are_complete(
        r,
        par2,
        result,
        inputs,
        stores,
        cancelled,
        unreadable,
    );
    assert forall|i: int| 0 <= i < later.ids.len() implies #[trigger] later.state(i)
        == FileState::Good by {
        lemma_good_after(r->Ok_0@, par2, result, c, later, i);
    }
    lemma_all_good(later, later.ids.len());
}

} // verus!
