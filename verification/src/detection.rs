//! What verification finds: which files are what they should be, which are damaged, where they are
//! damaged, and which are missing.

use vstd::prelude::*;

use crate::blocks;
use crate::hash;
use crate::loader::{Par2File, StoredFile};
use crate::parser;
use crate::parser::{ChecksumView, FileView};
use crate::repair;
use crate::solver;
use crate::verify;
use crate::verify::{Case, FileState, VerificationResult};

verus! {

/// The bytes of a file from block `i` on, as many as a block holds; where the file ends before, zeros
/// follow.
pub open spec fn bytes_of_block(data: Seq<u8>, block_size: nat, i: int) -> Seq<u8> {
    let from = i * block_size;
    if from >= data.len() {
        Seq::new(block_size, |k: int| 0u8)
    } else if from + block_size <= data.len() {
        data.subrange(from, from + block_size)
    } else {
        data.skip(from) + Seq::new((from + block_size - data.len()) as nat, |k: int| 0u8)
    }
}

/// The MD5 digest and the CRC32 of block `i` are those in the list.
pub open spec fn has_checksums(
    data: Seq<u8>,
    list: Seq<ChecksumView>,
    block_size: nat,
    i: int,
) -> bool {
    &&& list[i].md5 == hash::md5(bytes_of_block(data, block_size, i))
    &&& list[i].crc32 == hash::crc32_checksum(bytes_of_block(data, block_size, i))
}

pub proof fn lemma_block_bytes(data: Seq<u8>, block_size: nat, j: int)
    requires
        0 <= j,
    ensures
        blocks::block_at(data, block_size, j) == bytes_of_block(data, block_size, j),
{
    let from = j * block_size;
    assert(from >= 0) by (nonlinear_arith)
        requires
            j >= 0,
            from == j * block_size,
    ;
    assert(blocks::block_at(data, block_size, j) =~= bytes_of_block(data, block_size, j));
}

/// A block is good just if it has both checksums.
pub proof fn law_good_blocks_have_their_checksums(
    data: Seq<u8>,
    list: Seq<ChecksumView>,
    block_size: nat,
    i: int,
)
    requires
        0 <= i < list.len(),
    ensures
        verify::block_is_good(data, list, block_size, i) <==> has_checksums(
            data,
            list,
            block_size,
            i,
        ),
{
    lemma_block_bytes(data, block_size, i);
}

/// With checksums, a file is valid just if every block has its checksums.
pub proof fn law_valid_files_have_good_blocks(
    data: Seq<u8>,
    file: FileView,
    list: Seq<ChecksumView>,
    block_size: nat,
)
    ensures
        verify::is_valid(data, file, Some(list), block_size) <==> forall|i: int|
            0 <= i < list.len() ==> #[trigger] has_checksums(data, list, block_size, i),
{
    let bad = verify::damaged_blocks(data, list, block_size, list.len());
    verify::lemma_damaged_ascend(data, list, block_size, list.len());
    if verify::is_valid(data, file, Some(list), block_size) {
        assert forall|i: int| 0 <= i < list.len() implies #[trigger] has_checksums(
            data,
            list,
            block_size,
            i,
        ) by {
            law_good_blocks_have_their_checksums(data, list, block_size, i);
            verify::law_damaged_blocks(data, list, block_size, list.len(), i);
        }
    } else {
        let i = bad[0];
        verify::law_damaged_blocks(data, list, block_size, list.len(), i);
        assert(bad.contains(i));
        law_good_blocks_have_their_checksums(data, list, block_size, i);
    }
}

/// Without checksums, a file is valid just if its digest is right, and, if it has 16384 bytes or more,
/// that of the first 16384.
pub proof fn law_valid_files_have_their_digests(data: Seq<u8>, file: FileView, block_size: nat)
    requires
        data.len() == file.length,
    ensures
        verify::is_valid(data, file, None, block_size) <==> hash::md5(data) == file.hash && (
        data.len() >= 16384 ==> hash::md5(data.subrange(0, 16384)) == file.hash_16k),
{
    if data.len() >= 16384 {
        assert(parser::piece(data, 0, 16384) =~= data.subrange(0, 16384));
    }
}

/// The contents are those that the set says that its `i`th file has.
pub open spec fn is_right(par2: Par2File, i: int, data: Seq<u8>) -> bool {
    let id = par2.files.entries@[i].0@;
    let file = par2.files.entries@[i].1@;
    &&& data.len() == file.length
    &&& if par2.slice_checksums@.dom().contains(id) {
        let list = parser::checksum_views(par2.slice_checksums@[id]@);
        forall|b: int|
            0 <= b < list.len() ==> #[trigger] has_checksums(
                data,
                list,
                par2.block_size as nat,
                b,
            )
    } else {
        hash::md5(data) == file.hash && (data.len() >= 16384 ==> hash::md5(
            data.subrange(0, 16384),
        ) == file.hash_16k)
    }
}

proof fn lemma_fits(par2: Par2File, c: Case, i: int, data: Seq<u8>)
    requires
        c == verify::case_of(par2, c.named, c.extra),
        0 <= i < par2.files.entries@.len(),
    ensures
        c.fits(i, data) <==> is_right(par2, i, data),
        c.ids.len() == par2.files.entries@.len(),
        c.ids[i] == par2.files.entries@[i].0@,
        c.files[i] == par2.files.entries@[i].1@,
{
    let id = par2.files.entries@[i].0@;
    let file = par2.files.entries@[i].1@;
    let size = par2.block_size as nat;
    if par2.slice_checksums@.dom().contains(id) {
        let list = parser::checksum_views(par2.slice_checksums@[id]@);
        assert(c.sums(i) == Some(list));
        law_valid_files_have_good_blocks(data, file, list, size);
    } else {
        assert(c.sums(i) is None);
        if data.len() == file.length {
            law_valid_files_have_their_digests(data, file, size);
        }
    }
}

/// There is a file of the right size under the name of file `i`.
pub open spec fn is_in_place(par2: Par2File, named: Map<Seq<u8>, StoredFile>, i: int) -> bool {
    let id = par2.files.entries@[i].0@;
    named.dom().contains(id) && named[id].data@.len() == par2.files.entries@[i].1.length
}

proof fn lemma_state(par2: Par2File, c: Case, i: int)
    requires
        c == verify::case_of(par2, c.named, c.extra),
        0 <= i < par2.files.entries@.len(),
    ensures
        c.state(i) == FileState::Absent <==> !is_in_place(par2, c.named, i),
        c.state(i) == FileState::Good <==> is_in_place(par2, c.named, i) && is_right(
            par2,
            i,
            c.named[par2.files.entries@[i].0@].data@,
        ),
{
    lemma_fits(par2, c, i, c.named[par2.files.entries@[i].0@].data@);
}

proof fn lemma_damaged_list(c: Case, n: nat, id: Seq<u8>)
    requires
        n <= c.ids.len(),
    ensures
        c.damaged(n).contains(id) <==> exists|k: int|
            0 <= k < n && #[trigger] c.ids[k] == id && c.state(k) == FileState::Damaged,
    decreases n,
{
    if n > 0 {
        let m = (n - 1) as nat;
        lemma_damaged_list(c, m, id);
        let before = c.damaged(m);
        let list = c.damaged(n);
        if list.contains(id) {
            let p = choose|p: int| 0 <= p < list.len() && list[p] == id;
            if p < before.len() {
                assert(before[p] == id);
                assert(before.contains(id));
            } else {
                assert(c.ids[n - 1] == id);
            }
        }
        if before.contains(id) {
            let p = choose|p: int| 0 <= p < before.len() && before[p] == id;
            assert(list[p] == id);
        }
        if c.state(n - 1) == FileState::Damaged && c.ids[n - 1] == id {
            assert(list[before.len() as int] == id);
        }
    }
}

proof fn lemma_missing_list(c: Case, n: nat, id: Seq<u8>)
    requires
        n <= c.ids.len(),
    ensures
        c.missing(n).contains(id) <==> exists|k: int|
            0 <= k < n && #[trigger] c.ids[k] == id && c.place(k, c.extra.len()) is None,
    decreases n,
{
    if n > 0 {
        let m = (n - 1) as nat;
        lemma_missing_list(c, m, id);
        let before = c.missing(m);
        let list = c.missing(n);
        if list.contains(id) {
            let p = choose|p: int| 0 <= p < list.len() && list[p] == id;
            if p < before.len() {
                assert(before[p] == id);
                assert(before.contains(id));
            } else {
                assert(c.ids[n - 1] == id);
            }
        }
        if before.contains(id) {
            let p = choose|p: int| 0 <= p < before.len() && before[p] == id;
            assert(list[p] == id);
        }
        if c.place(n - 1, c.extra.len()) is None && c.ids[n - 1] == id {
            assert(list[before.len() as int] == id);
        }
    }
}

/// A file is damaged just if there is a file of the right size under its name with other contents.
pub proof fn law_damaged_files(
    par2: Par2File,
    named: Map<Seq<u8>, StoredFile>,
    extra: Seq<StoredFile>,
    r: VerificationResult,
    i: int,
)
    requires
        par2.files.wf(),
        verify::is_result(r, verify::case_of(par2, named, extra)),
        0 <= i < par2.files.entries@.len(),
    ensures
        ({
            let id = par2.files.entries@[i].0@;
            parser::id_views(r.damaged_files@).contains(id) <==> is_in_place(par2, named, i)
                && !is_right(par2, i, named[id].data@)
        }),
{
    let c = verify::case_of(par2, named, extra);
    let id = par2.files.entries@[i].0@;
    lemma_damaged_list(c, c.ids.len(), id);
    lemma_state(par2, c, i);
    verify::lemma_distinct_ids(par2, c);
    assert(c.ids[i] == id);
    if c.damaged(c.ids.len()).contains(id) {
        let k = choose|k: int|
            0 <= k < c.ids.len() && #[trigger] c.ids[k] == id && c.state(k) == FileState::Damaged;
        if k < i {
            assert(c.ids[k] != c.ids[i]);
        } else if i < k {
            assert(c.ids[i] != c.ids[k]);
        }
    }
}

/// The damage of a damaged file with checksums is listed: just the blocks without their checksums, in
/// ascending order.
pub proof fn law_damage_is_listed(
    par2: Par2File,
    named: Map<Seq<u8>, StoredFile>,
    extra: Seq<StoredFile>,
    r: VerificationResult,
    i: int,
)
    requires
        par2.files.wf(),
        verify::is_result(r, verify::case_of(par2, named, extra)),
        0 <= i < par2.files.entries@.len(),
    ensures
        ({
            let id = par2.files.entries@[i].0@;
            let list = parser::checksum_views(par2.slice_checksums@[id]@);
            let bad = r.block_damages@[id].damaged_block_indices@;
            &&& r.block_damages@.dom().contains(id) <==> parser::id_views(
                r.damaged_files@,
            ).contains(id) && par2.slice_checksums@.dom().contains(id)
            &&& r.block_damages@.dom().contains(id) ==> {
                &&& forall|b: int|
                    0 <= b < list.len() ==> (#[trigger] has_checksums(
                        named[id].data@,
                        list,
                        par2.block_size as nat,
                        b,
                    ) <==> !solver::indices(bad).contains(b))
                &&& forall|k: int| 0 <= k < bad.len() ==> #[trigger] bad[k] < list.len()
                &&& forall|j: int, k: int|
                    0 <= j < k < bad.len() ==> #[trigger] bad[j] < #[trigger] bad[k]
            }
        }),
{
    let c = verify::case_of(par2, named, extra);
    let id = par2.files.entries@[i].0@;
    law_damaged_files(par2, named, extra, r, i);
    lemma_state(par2, c, i);
    lemma_fits(par2, c, i, named[id].data@);
    assert(c.ids[i] == id);
    if r.block_damages@.dom().contains(id) {
        let list = parser::checksum_views(par2.slice_checksums@[id]@);
        let bad = r.block_damages@[id].damaged_block_indices@;
        let data = named[id].data@;
        let size = par2.block_size as nat;
        assert(c.sums(i) == Some(list));
        let all = verify::damaged_blocks(data, list, size, list.len());
        assert(solver::indices(bad) == all);
        verify::lemma_damaged_ascend(data, list, size, list.len());
        assert forall|b: int| 0 <= b < list.len() implies (#[trigger] has_checksums(
            data,
            list,
            size,
            b,
        ) <==> !solver::indices(bad).contains(b)) by {
            law_good_blocks_have_their_checksums(data, list, size, b);
            verify::law_damaged_blocks(data, list, size, list.len(), b);
        }
        assert forall|k: int| 0 <= k < bad.len() implies #[trigger] bad[k] < list.len() by {
            assert(all[k] == bad[k]);
        }
        assert forall|j: int, k: int| 0 <= j < k < bad.len() implies #[trigger] bad[j]
            < #[trigger] bad[k] by {
            assert(all[j] == bad[j]);
            assert(all[k] == bad[k]);
        }
    }
}

/// The path is that of a file of the right size that was found under a name of the set.
pub open spec fn is_path_of_named(
    par2: Par2File,
    named: Map<Seq<u8>, StoredFile>,
    path: Seq<char>,
) -> bool {
    exists|k: int|
        0 <= k < par2.files.entries@.len() && is_in_place(par2, named, k) && named[(
        #[trigger] par2.files.entries@[k]).0@].path@ == path
}

proof fn lemma_taken(par2: Par2File, c: Case, path: Seq<char>)
    requires
        c == verify::case_of(par2, c.named, c.extra),
    ensures
        c.is_taken(path) <==> is_path_of_named(par2, c.named, path),
{
    if c.is_taken(path) {
        let k = choose|k: int|
            0 <= k < c.ids.len() && c.state(k) != FileState::Absent && c.named[
            #[trigger] c.ids[k]].path@ == path;
        lemma_state(par2, c, k);
        assert(c.ids[k] == par2.files.entries@[k].0@);
    }
    if is_path_of_named(par2, c.named, path) {
        let k = choose|k: int|
            0 <= k < par2.files.entries@.len() && is_in_place(par2, c.named, k) && c.named[(
            #[trigger] par2.files.entries@[k]).0@].path@ == path;
        lemma_state(par2, c, k);
        assert(c.ids[k] == par2.files.entries@[k].0@);
        assert(c.named[c.ids[k]].path@ == path);
    }
}

/// A file is missing just if there is no file of the right size under its name, and it was not found by
/// its contents either.
pub proof fn law_missing_files(
    par2: Par2File,
    named: Map<Seq<u8>, StoredFile>,
    extra: Seq<StoredFile>,
    r: VerificationResult,
    i: int,
)
    requires
        par2.files.wf(),
        verify::is_result(r, verify::case_of(par2, named, extra)),
        0 <= i < par2.files.entries@.len(),
    ensures
        ({
            let id = par2.files.entries@[i].0@;
            &&& parser::id_views(r.missing_files@).contains(id) ==> !is_in_place(par2, named, i)
                && !r.verified_files@.dom().contains(id)
            &&& !parser::id_views(r.missing_files@).contains(id) ==> r.verified_files@.dom().contains(
                id,
            )
            &&& is_in_place(par2, named, i) ==> r.verified_files@.dom().contains(id)
                && r.verified_files@[id]@ == named[id].path@
            &&& !is_in_place(par2, named, i) && r.verified_files@.dom().contains(id) ==> exists|
                j: int,
            |
                0 <= j < extra.len() && is_right(par2, i, (#[trigger] extra[j]).data@)
                    && r.verified_files@[id]@ == extra[j].path@ && !is_path_of_named(
                    par2,
                    named,
                    extra[j].path@,
                )
        }),
{
    let c = verify::case_of(par2, named, extra);
    let id = par2.files.entries@[i].0@;
    lemma_missing_list(c, c.ids.len(), id);
    lemma_state(par2, c, i);
    verify::lemma_distinct_ids(par2, c);
    assert(c.ids[i] == id);
    if c.missing(c.ids.len()).contains(id) {
        let k = choose|k: int|
            0 <= k < c.ids.len() && #[trigger] c.ids[k] == id && c.place(k, c.extra.len()) is None;
        if k < i {
            assert(c.ids[k] != c.ids[i]);
        } else if i < k {
            assert(c.ids[i] != c.ids[k]);
        }
    }
    if !is_in_place(par2, named, i) && r.verified_files@.dom().contains(id) {
        verify::law_found_files_fit(c, i, extra.len());
        let j = c.finder(i, extra.len())->Some_0;
        lemma_fits(par2, c, i, extra[j].data@);
        lemma_finder_is_free(c, i, extra.len());
        lemma_taken(par2, c, extra[j].path@);
        assert(is_right(par2, i, extra[j].data@));
    }
}

proof fn lemma_finder_is_free(c: Case, i: int, n: nat)
    requires
        n <= c.extra.len(),
    ensures
        c.finder(i, n) matches Some(j) ==> 0 <= j < n && !c.is_taken(c.extra[j].path@),
    decreases n,
{
    if n > 0 {
        lemma_finder_is_free(c, i, (n - 1) as nat);
    }
}

/// A file that is not under its name is found if another file has its contents, unless that one is
/// itself a file under a name of the set, or its contents are also those of another file that is not
/// under its name.
pub proof fn law_renamed_files_are_not_missing(
    par2: Par2File,
    named: Map<Seq<u8>, StoredFile>,
    extra: Seq<StoredFile>,
    r: VerificationResult,
    i: int,
    j: int,
)
    requires
        par2.files.wf(),
        verify::is_result(r, verify::case_of(par2, named, extra)),
        0 <= i < par2.files.entries@.len(),
        0 <= j < extra.len(),
        is_right(par2, i, extra[j].data@),
        forall|k: int|
            0 <= k < par2.files.entries@.len() && is_in_place(par2, named, k) ==> named[(
            #[trigger] par2.files.entries@[k]).0@].path@ != extra[j].path@,
        forall|k: int|
            0 <= k < par2.files.entries@.len() && k != i && !#[trigger] is_in_place(par2, named, k)
                ==> !is_right(par2, k, extra[j].data@),
    ensures
        r.verified_files@.dom().contains(par2.files.entries@[i].0@),
        !parser::id_views(r.missing_files@).contains(par2.files.entries@[i].0@),
{
    let c = verify::case_of(par2, named, extra);
    let id = par2.files.entries@[i].0@;
    assert(c.ids[i] == id);
    lemma_state(par2, c, i);
    if !is_in_place(par2, named, i) {
        lemma_fits(par2, c, i, extra[j].data@);
        lemma_taken(par2, c, extra[j].path@);
        assert forall|k: int|
            0 <= k < c.ids.len() && k != i && #[trigger] c.state(k)
                == FileState::Absent implies !c.fits(k, extra[j].data@) by {
            lemma_state(par2, c, k);
            lemma_fits(par2, c, k, extra[j].data@);
            assert(!is_in_place(par2, named, k));
        }
        verify::law_renamed_files_are_found(c, i, j);
    }
    law_missing_files(par2, named, extra, r, i);
}

/// All is verified just if nothing is damaged and nothing is missing. Then every file was found, under
/// its name or another, with the contents that it should have.
pub proof fn law_all_verified(
    par2: Par2File,
    named: Map<Seq<u8>, StoredFile>,
    extra: Seq<StoredFile>,
    r: VerificationResult,
)
    requires
        par2.files.wf(),
        verify::is_result(r, verify::case_of(par2, named, extra)),
    ensures
        r.all_verified <==> r.damaged_files@.len() == 0 && r.missing_files@.len() == 0,
        r.all_verified ==> forall|i: int|
            0 <= i < par2.files.entries@.len() ==> {
                let id = (#[trigger] par2.files.entries@[i]).0@;
                (named.dom().contains(id) && is_right(par2, i, named[id].data@)) || exists|j: int|
                    0 <= j < extra.len() && is_right(par2, i, (#[trigger] extra[j]).data@)
            },
        (forall|i: int|
            0 <= i < par2.files.entries@.len() ==> is_in_place(par2, named, i) && is_right(
                par2,
                i,
                named[(#[trigger] par2.files.entries@[i]).0@].data@,
            )) ==> r.all_verified,
{
    let c = verify::case_of(par2, named, extra);
    let n = c.ids.len();
    assert(parser::id_views(r.damaged_files@).len() == r.damaged_files@.len());
    assert(parser::id_views(r.missing_files@).len() == r.missing_files@.len());
    if r.all_verified {
        assert forall|i: int| 0 <= i < par2.files.entries@.len() implies {
            let id = (#[trigger] par2.files.entries@[i]).0@;
            (named.dom().contains(id) && is_right(par2, i, named[id].data@)) || exists|j: int|
                0 <= j < extra.len() && is_right(par2, i, (#[trigger] extra[j]).data@)
        } by {
            law_damaged_files(par2, named, extra, r, i);
            law_missing_files(par2, named, extra, r, i);
        }
    }
    if forall|i: int|
        0 <= i < par2.files.entries@.len() ==> is_in_place(par2, named, i) && is_right(
            par2,
            i,
            named[(#[trigger] par2.files.entries@[i]).0@].data@,
        ) {
        if c.damaged(n).len() > 0 {
            let id = c.damaged(n)[0];
            lemma_damaged_list(c, n, id);
            assert(c.damaged(n).contains(id));
            let k = choose|k: int|
                0 <= k < n && #[trigger] c.ids[k] == id && c.state(k) == FileState::Damaged;
            lemma_state(par2, c, k);
            assert(par2.files.entries@[k].0@ == id);
        }
        if c.missing(n).len() > 0 {
            let id = c.missing(n)[0];
            lemma_missing_list(c, n, id);
            assert(c.missing(n).contains(id));
            let k = choose|k: int|
                0 <= k < n && #[trigger] c.ids[k] == id && c.place(k, c.extra.len()) is None;
            lemma_state(par2, c, k);
            assert(par2.files.entries@[k].0@ == id);
        }
    }
}

/// A repaired file counts as what it should be just if it has the right checksums or digests.
pub proof fn law_repaired_files_are_checked(par2: Par2File, i: int, data: Seq<u8>)
    requires
        par2.files.wf(),
        0 <= i < par2.files.entries@.len(),
        data.len() == par2.files.entries@[i].1.length,
    ensures
        repair::passes(par2, par2.files.entries@[i].0@, data) <==> is_right(par2, i, data),
{
    par2.files.lemma_entry(i);
    let id = par2.files.entries@[i].0@;
    let size = par2.block_size as nat;
    if par2.slice_checksums@.dom().contains(id) {
        let list = parser::checksum_views(par2.slice_checksums@[id]@);
        law_valid_files_have_good_blocks(data, par2.files@[id]@, list, size);
    } else {
        law_valid_files_have_their_digests(data, par2.files@[id]@, size);
    }
}

/// The entry is that of file `i`, which was found as the other file `j`.
spec fn is_rename(c: Case, entry: (Seq<char>, Seq<char>), n: nat, i: int) -> bool {
    &&& 0 <= i < c.ids.len()
    &&& c.finder(i, n) is Some
    &&& entry == (c.extra[c.finder(i, n)->Some_0].path@, c.files[i].name)
}

spec fn has_rename(c: Case, entry: (Seq<char>, Seq<char>), n: nat) -> bool {
    exists|i: int| #[trigger] is_rename(c, entry, n, i)
}

proof fn lemma_renamed_list(c: Case, n: nat)
    requires
        n <= c.extra.len(),
    ensures
        forall|p: int|
            0 <= p < c.renamed(n).len() ==> has_rename(c, #[trigger] c.renamed(n)[p], n),
        forall|i: int|
            0 <= i < c.ids.len() && #[trigger] c.finder(i, n) is Some ==> c.renamed(n).contains(
                (c.extra[c.finder(i, n)->Some_0].path@, c.files[i].name),
            ),
    decreases n,
{
    if n > 0 {
        let m = (n - 1) as nat;
        lemma_renamed_list(c, m);
        let before = c.renamed(m);
        let list = c.renamed(n);
        verify::lemma_first_fit(c, c.extra[n - 1].data@, 0);
        assert forall|p: int| 0 <= p < list.len() implies has_rename(c, #[trigger] list[p], n) by {
            if p < before.len() {
                assert(list[p] == before[p]);
                assert(has_rename(c, before[p], m));
                let i = choose|i: int| #[trigger] is_rename(c, before[p], m, i);
                assert(is_rename(c, list[p], n, i));
            } else {
                let i = c.fit_of(n - 1)->Some_0;
                assert(is_rename(c, list[p], n, i));
            }
        }
        assert forall|i: int| 0 <= i < c.ids.len() && #[trigger] c.finder(i, n) is Some implies
            list.contains((c.extra[c.finder(i, n)->Some_0].path@, c.files[i].name)) by {
            let entry = (c.extra[c.finder(i, n)->Some_0].path@, c.files[i].name);
            if c.finder(i, m) is Some {
                assert(before.contains(entry));
                let p = choose|p: int| 0 <= p < before.len() && before[p] == entry;
                assert(list[p] == entry);
            } else {
                assert(list[before.len() as int] == entry);
            }
        }
    }
}

/// The entry is that of file `i`: the path where it was found, and the name that it should have.
pub open spec fn is_entry_for(
    par2: Par2File,
    named: Map<Seq<u8>, StoredFile>,
    r: VerificationResult,
    entry: (String, String),
    i: int,
) -> bool {
    let id = par2.files.entries@[i].0@;
    &&& 0 <= i < par2.files.entries@.len()
    &&& !is_in_place(par2, named, i)
    &&& r.verified_files@.dom().contains(id)
    &&& entry.0@ == r.verified_files@[id]@
    &&& entry.1@ == par2.files.entries@[i].1.name@
}

/// The entry is that of some file.
pub open spec fn is_entry_for_some(
    par2: Par2File,
    named: Map<Seq<u8>, StoredFile>,
    r: VerificationResult,
    entry: (String, String),
) -> bool {
    exists|i: int| #[trigger] is_entry_for(par2, named, r, entry, i)
}

/// The files that were found by their contents are listed with the names that they should have: just
/// those that are not under their names, each with the path where it was found.
pub proof fn law_renamed_files_are_listed(
    par2: Par2File,
    named: Map<Seq<u8>, StoredFile>,
    extra: Seq<StoredFile>,
    r: VerificationResult,
)
    requires
        par2.files.wf(),
        verify::is_result(r, verify::case_of(par2, named, extra)),
    ensures
        forall|p: int|
            0 <= p < r.renamed_files@.len() ==> is_entry_for_some(
                par2,
                named,
                r,
                #[trigger] r.renamed_files@[p],
            ),
        forall|i: int|
            0 <= i < par2.files.entries@.len() && !is_in_place(par2, named, i)
                && r.verified_files@.dom().contains((#[trigger] par2.files.entries@[i]).0@)
                ==> exists|p: int|
                0 <= p < r.renamed_files@.len() && (#[trigger] r.renamed_files@[p]).0@
                    == r.verified_files@[par2.files.entries@[i].0@]@ && r.renamed_files@[p].1@
                    == par2.files.entries@[i].1.name@,
{
    let c = verify::case_of(par2, named, extra);
    let n = extra.len();
    let list = verify::rename_views(r.renamed_files@);
    lemma_renamed_list(c, n);
    assert forall|p: int| 0 <= p < r.renamed_files@.len() implies is_entry_for_some(
        par2,
        named,
        r,
        #[trigger] r.renamed_files@[p],
    ) by {
        assert(has_rename(c, c.renamed(n)[p], n));
        assert(list[p] == (r.renamed_files@[p].0@, r.renamed_files@[p].1@));
        let i = choose|i: int| #[trigger] is_rename(c, c.renamed(n)[p], n, i);
        verify::law_found_files_fit(c, i, n);
        lemma_state(par2, c, i);
        assert(c.ids[i] == par2.files.entries@[i].0@);
        assert(c.place(i, n) is Some);
        assert(is_entry_for(par2, named, r, r.renamed_files@[p], i));
    }
    assert forall|i: int|
        0 <= i < par2.files.entries@.len() && !is_in_place(par2, named, i)
            && r.verified_files@.dom().contains(
            (#[trigger] par2.files.entries@[i]).0@,
        ) implies exists|p: int|
        0 <= p < r.renamed_files@.len() && (#[trigger] r.renamed_files@[p]).0@
            == r.verified_files@[par2.files.entries@[i].0@]@ && r.renamed_files@[p].1@
            == par2.files.entries@[i].1.name@ by {
        lemma_state(par2, c, i);
        assert(c.ids[i] == par2.files.entries@[i].0@);
        assert(c.finder(i, n) is Some);
        let entry = (c.extra[c.finder(i, n)->Some_0].path@, c.files[i].name);
        let p = choose|p: int| 0 <= p < list.len() && list[p] == entry;
        assert(list[p] == (r.renamed_files@[p].0@, r.renamed_files@[p].1@));
    }
}

} // verus!
