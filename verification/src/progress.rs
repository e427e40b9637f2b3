//! How much of the work is done.
//!
//! A report tells what is being done, how much of it is done, and how much there is: of a set that is
//! loaded the percentage, of files that are verified the bytes, of a repair the chunks.

use vstd::prelude::*;

use crate::blocks;
use crate::creator;
use crate::hash;
use crate::loader::{Par2File, StoredFile};
use crate::parser;
use crate::parser::{ChecksumView, FileInfo, FileView, SliceChecksum};
use crate::tables::IdTable;
use crate::verify;
use crate::verify::{Case, FileState};

verus! {

/// The part that `done` is of `total`, in percent: at most 100, and 100 of nothing.
pub open spec fn percent(done: int, total: int) -> int {
    if total <= 0 || done > total {
        100
    } else {
        done * 100 / total
    }
}

/// The part that is done, in percent.
pub fn percent_of(done: u64, total: u64) -> (r: u64)
    ensures
        r == percent(done as int, total as int),
        r <= 100,
{
    if total == 0 || done > total {
        return 100;
    }
    proof {
        assert(done * 100 / (total as int) <= 100) by (nonlinear_arith)
            requires
                0 <= done <= total,
                total > 0,
        ;
    }
    (done as u128 * 100 / total as u128) as u64
}

/// A repair reports a number of chunks: every hundredth part of them, and all of them.
pub open spec fn is_reported(done: int, total: int) -> bool {
    let part = if total < 200 {
        1
    } else {
        total / 100
    };
    done == total || done % part == 0
}

/// Whether a repair that has restored so many chunks reports it.
pub fn is_due(done: u64, total: u64) -> (r: bool)
    ensures
        r == is_reported(done as int, total as int),
{
    let part: u64 = if total < 200 {
        1
    } else {
        total / 100
    };
    done == total || done % part == 0
}

/// Number of bytes that are read at most before a report, when blocks are verified.
pub const BATCH_BYTES: u64 = 67108864;

/// Number of bytes that are read before a report, when a whole file is verified.
pub const PIECE_BYTES: u64 = 1048576;

/// Number of blocks that are read before a report: at least 1 and at most 64.
pub open spec fn blocks_per_batch(block_size: int) -> int {
    let n = BATCH_BYTES as int / block_size;
    if n < 1 {
        1
    } else if n > 64 {
        64
    } else {
        n
    }
}

/// What is reported while the blocks of a file are read, from block `from` on.
pub open spec fn batch_reports(length: int, block_size: int, count: int, from: int) -> Seq<u64>
    decreases count - from,
{
    if from >= count {
        seq![]
    } else {
        let to = parser::least(from + blocks_per_batch(block_size), count);
        seq![
            (parser::least(length, to * block_size) - parser::least(
                length,
                from * block_size,
            )) as u64,
        ] + batch_reports(length, block_size, count, to)
    }
}

/// What is reported while the rest of a file is read.
pub open spec fn piece_reports(left: int) -> Seq<u64>
    decreases left,
{
    if left <= 0 {
        seq![]
    } else if left < PIECE_BYTES {
        seq![left as u64]
    } else {
        seq![PIECE_BYTES] + piece_reports(left - PIECE_BYTES)
    }
}

/// The numbers of bytes that are reported, one after the other, while a file is verified. A file of the
/// wrong size is not read. Of a larger file without checksums the first 16 KiB are read first, and read
/// again with the rest if they are as they should be.
pub open spec fn file_reports(
    data: Seq<u8>,
    file: FileView,
    checksums: Option<Seq<ChecksumView>>,
    block_size: int,
) -> Seq<u64> {
    let length = data.len() as int;
    if length != file.length {
        seq![]
    } else {
        match checksums {
            Some(list) => batch_reports(length, block_size, list.len() as int, 0),
            None => if length < 16384 {
                seq![length as u64]
            } else if hash::md5(parser::piece(data, 0, 16384)) != file.hash_16k {
                seq![16384u64, (length - 16384) as u64]
            } else {
                seq![16384u64] + piece_reports(length)
            },
        }
    }
}

/// What is reported while the first `n` files are looked for under their names.
pub open spec fn named_reports(c: Case, n: nat) -> Seq<u64>
    decreases n,
{
    if n == 0 {
        seq![]
    } else {
        named_reports(c, (n - 1) as nat) + (if c.named.dom().contains(c.ids[n - 1]) {
            file_reports(
                c.named[c.ids[n - 1]].data@,
                c.files[n - 1],
                c.sums(n - 1),
                c.block_size as int,
            )
        } else {
            seq![]
        })
    }
}

/// What is reported while another file is compared with the files that were not found, from `from` on,
/// up to the first that it is.
pub open spec fn tried_reports(c: Case, data: Seq<u8>, from: int) -> Seq<u64>
    decreases c.ids.len() - from,
{
    if from >= c.ids.len() {
        seq![]
    } else if c.state(from) != FileState::Absent {
        tried_reports(c, data, from + 1)
    } else {
        file_reports(data, c.files[from], c.sums(from), c.block_size as int) + (if c.fits(
            from,
            data,
        ) {
            seq![]
        } else {
            tried_reports(c, data, from + 1)
        })
    }
}

/// What is reported while the first `n` other files are looked at.
pub open spec fn extra_reports(c: Case, n: nat) -> Seq<u64>
    decreases n,
{
    if n == 0 {
        seq![]
    } else {
        extra_reports(c, (n - 1) as nat) + (if c.is_taken(c.extra[n - 1].path@) {
            seq![]
        } else {
            tried_reports(c, c.extra[n - 1].data@, 0)
        })
    }
}

/// The number of bytes after some steps, as a 64-bit counter.
pub open spec fn counted(steps: Seq<u64>) -> u64
    decreases steps.len(),
{
    if steps.len() == 0 {
        0
    } else {
        ((counted(steps.drop_last()) + steps.last()) % 0x1_0000_0000_0000_0000) as u64
    }
}

/// The counter after each of the steps.
pub open spec fn running(steps: Seq<u64>) -> Seq<u64> {
    Seq::new(steps.len(), |i: int| counted(steps.take(i + 1)))
}

/// The numbers of bytes that are reported while files are verified, and at last the number of all bytes.
pub open spec fn verifying_reports(c: Case) -> Seq<u64> {
    running(named_reports(c, c.ids.len()) + extra_reports(c, c.extra.len())).push(
        creator::total_length(creator::lengths_of(c.files)) as u64,
    )
}

/// The number of bytes of the files of a set.
pub fn total_bytes(par2: &Par2File) -> (r: u64)
    requires
        creator::total_length(table_lengths(*par2)) <= u64::MAX,
    ensures
        r == creator::total_length(table_lengths(*par2)),
{
    let ghost lengths = table_lengths(*par2);
    let n: usize = par2.files.entries.len();
    let mut total: u64 = 0;
    assert(lengths.take(0) =~= seq![]);
    for i in 0..n
        invariant
            n == par2.files.entries@.len(),
            lengths == table_lengths(*par2),
            creator::total_length(lengths) <= u64::MAX,
            total == creator::total_length(lengths.take(i as int)),
    {
        proof {
            assert(lengths.take(i + 1).drop_last() =~= lengths.take(i as int));
            assert(lengths.take(i + 1).last() == par2.files.entries@[i as int].1.length);
            creator::lemma_total_length_monotone(lengths, i + 1);
        }
        total = total + par2.files.entries[i].1.length;
    }
    assert(lengths.take(n as int) =~= lengths);
    total
}

/// The lengths of the files of a set.
pub open spec fn table_lengths(par2: Par2File) -> Seq<u64> {
    Seq::new(par2.files.entries@.len(), |i: int| par2.files.entries@[i].1.length)
}

fn least_of(a: u128, b: u128) -> (r: u128)
    ensures
        r == parser::least(a as int, b as int),
{
    if a <= b {
        a
    } else {
        b
    }
}

fn report_batches(out: &mut Vec<u64>, length: usize, block_size: u64, count: usize)
    requires
        block_size > 0,
    ensures
        final(out)@ == old(out)@ + batch_reports(
            length as int,
            block_size as int,
            count as int,
            0,
        ),
{
    let share: u64 = BATCH_BYTES / block_size;
    let step: usize = if share < 1 {
        1
    } else if share > 64 {
        64
    } else {
        share as usize
    };
    let mut from: usize = 0;
    while from < count
        invariant
            block_size > 0,
            step == blocks_per_batch(block_size as int),
            from <= count,
            out@ + batch_reports(length as int, block_size as int, count as int, from as int)
                == old(out)@ + batch_reports(length as int, block_size as int, count as int, 0),
        decreases count - from,
    {
        let to: usize = if count - from <= step {
            count
        } else {
            from + step
        };
        proof {
            assert(from * block_size <= to * block_size) by (nonlinear_arith)
                requires
                    from <= to,
                    block_size >= 0,
            ;
            assert(to * block_size <= u128::MAX) by (nonlinear_arith)
                requires
                    0 <= to <= 0xffff_ffff_ffff_ffff,
                    0 <= block_size <= 0xffff_ffff_ffff_ffff,
            ;
        }
        let end: u128 = least_of(length as u128, to as u128 * block_size as u128);
        let begin: u128 = least_of(length as u128, from as u128 * block_size as u128);
        let ghost before = out@;
        let ghost rest = batch_reports(
            length as int,
            block_size as int,
            count as int,
            to as int,
        );
        out.push((end - begin) as u64);
        assert(before + (seq![(end - begin) as u64] + rest) =~= out@ + rest);
        from = to;
    }
    assert(out@ + batch_reports(length as int, block_size as int, count as int, from as int)
        =~= out@);
}

fn report_pieces(out: &mut Vec<u64>, length: usize)
    ensures
        final(out)@ == old(out)@ + piece_reports(length as int),
{
    let mut left: u64 = length as u64;
    while left >= PIECE_BYTES
        invariant
            out@ + piece_reports(left as int) == old(out)@ + piece_reports(length as int),
        decreases left,
    {
        let ghost before = out@;
        let ghost rest = piece_reports(left - PIECE_BYTES);
        out.push(PIECE_BYTES);
        assert(before + (seq![PIECE_BYTES] + rest) =~= out@ + rest);
        left = left - PIECE_BYTES;
    }
    let ghost before = out@;
    if left > 0 {
        out.push(left);
        assert(out@ =~= before + seq![left]);
    } else {
        assert(out@ =~= before + piece_reports(0));
    }
}

/// Tell what is reported while a file is verified.
pub fn report_file(
    out: &mut Vec<u64>,
    data: &[u8],
    file_info: &FileInfo,
    slice_checksums: Option<&[SliceChecksum]>,
    block_size: u64,
)
    requires
        block_size > 0,
    ensures
        final(out)@ == old(out)@ + file_reports(
            data@,
            file_info@,
            verify::optional_checksums(slice_checksums),
            block_size as int,
        ),
{
    let n: usize = data.len();
    let ghost before = out@;
    if n as u64 != file_info.length {
        assert(out@ =~= before + seq![]);
        return ;
    }
    if let Some(checksums) = slice_checksums {
        report_batches(out, n, block_size, checksums.len());
        return ;
    }
    if n < 16384 {
        out.push(n as u64);
        assert(out@ =~= before + seq![n as u64]);
        return ;
    }
    out.push(16384);
    if !verify::verify_16k_hash(data, &file_info.hash_16k) {
        out.push(n as u64 - 16384);
        assert(out@ =~= before + seq![16384u64, (n - 16384) as u64]);
        return ;
    }
    let ghost middle = out@;
    report_pieces(out, n);
    assert(middle + piece_reports(n as int) =~= before + (seq![16384u64] + piece_reports(n as int)));
}

/// Whether file `i` was not found under its name.
fn is_absent(par2: &Par2File, named: &IdTable<StoredFile>, i: usize, Ghost(c): Ghost<Case>) -> (r:
    bool)
    requires
        i < c.ids.len(),
        c == verify::case_of(*par2, named@, c.extra),
        named.wf(),
    ensures
        r == (c.state(i as int) == FileState::Absent),
{
    assert(c.ids[i as int] == par2.files.entries@[i as int].0@);
    match named.get(&par2.files.entries[i].0) {
        Some(file) => {
            let n: usize = file.data.len();
            n as u64 != par2.files.entries[i].1.length
        },
        None => true,
    }
}

/// Whether a file was found at a path under its name.
fn is_path_taken(
    par2: &Par2File,
    named: &IdTable<StoredFile>,
    path: &String,
    Ghost(c): Ghost<Case>,
) -> (r: bool)
    requires
        c == verify::case_of(*par2, named@, c.extra),
        named.wf(),
    ensures
        r == c.is_taken(path@),
{
    let n: usize = par2.files.entries.len();
    for i in 0..n
        invariant
            n == par2.files.entries@.len(),
            n == c.ids.len(),
            c == verify::case_of(*par2, named@, c.extra),
            named.wf(),
            forall|k: int|
                0 <= k < i && c.state(k) != FileState::Absent ==> c.named[
                #[trigger] c.ids[k]].path@ != path@,
    {
        assert(c.ids[i as int] == par2.files.entries@[i as int].0@);
        if !is_absent(par2, named, i, Ghost(c)) {
            if let Some(file) = named.get(&par2.files.entries[i].0) {
                if file.path == *path {
                    assert(c.named[c.ids[i as int]].path@ == path@);
                    return true;
                }
            }
        }
    }
    false
}

/// Tell what is reported while the files are looked for under their names.
fn report_named(
    out: &mut Vec<u64>,
    par2: &Par2File,
    named: &IdTable<StoredFile>,
    Ghost(c): Ghost<Case>,
)
    requires
        c == verify::case_of(*par2, named@, c.extra),
        par2.slice_checksums.wf(),
        named.wf(),
        par2.block_size > 0,
    ensures
        final(out)@ == old(out)@ + named_reports(c, c.ids.len()),
{
    let n: usize = par2.files.entries.len();
    assert(out@ + named_reports(c, 0) =~= out@);
    for i in 0..n
        invariant
            n == par2.files.entries@.len(),
            n == c.ids.len(),
            c == verify::case_of(*par2, named@, c.extra),
            par2.slice_checksums.wf(),
            named.wf(),
            par2.block_size > 0,
            out@ == old(out)@ + named_reports(c, i as nat),
    {
        let ghost before = out@;
        let id = par2.files.entries[i].0;
        assert(c.ids[i as int] == id@);
        let sums = verify::checksums_of(par2, &id);
        assert(verify::optional_checksums(sums) == c.sums(i as int));
        if let Some(file) = named.get(&id) {
            report_file(
                out,
                file.data.as_slice(),
                &par2.files.entries[i].1,
                sums,
                par2.block_size,
            );
        }
        assert(out@ =~= old(out)@ + named_reports(c, (i + 1) as nat));
    }
}

/// Tell what is reported while another file is compared with the files that were not found.
fn report_tried(
    out: &mut Vec<u64>,
    par2: &Par2File,
    named: &IdTable<StoredFile>,
    file: &StoredFile,
    Ghost(c): Ghost<Case>,
)
    requires
        c == verify::case_of(*par2, named@, c.extra),
        par2.files.wf(),
        par2.slice_checksums.wf(),
        named.wf(),
        0 < par2.block_size <= usize::MAX,
    ensures
        final(out)@ == old(out)@ + tried_reports(c, file.data@, 0),
{
    let n: usize = par2.files.entries.len();
    for i in 0..n
        invariant
            n == par2.files.entries@.len(),
            n == c.ids.len(),
            c == verify::case_of(*par2, named@, c.extra),
            par2.files.wf(),
            par2.slice_checksums.wf(),
            named.wf(),
            0 < par2.block_size <= usize::MAX,
            out@ + tried_reports(c, file.data@, i as int) == old(out)@ + tried_reports(
                c,
                file.data@,
                0,
            ),
    {
        if is_absent(par2, named, i, Ghost(c)) {
            let ghost before = out@;
            let ghost rest = tried_reports(c, file.data@, i + 1);
            let sums = verify::checksums_of(par2, &par2.files.entries[i].0);
            assert(verify::optional_checksums(sums) == c.sums(i as int));
            report_file(
                out,
                file.data.as_slice(),
                &par2.files.entries[i].1,
                sums,
                par2.block_size,
            );
            let ghost here = file_reports(
                file.data@,
                c.files[i as int],
                c.sums(i as int),
                c.block_size as int,
            );
            let fits = verify::fits_file(
                par2,
                i,
                file.path.as_str(),
                file.data.as_slice(),
                Ghost(c),
            );
            if fits == Some(true) {
                assert(before + (here + seq![]) =~= out@);
                return ;
            }
            assert(before + (here + rest) =~= out@ + rest);
        }
    }
    assert(out@ + tried_reports(c, file.data@, n as int) =~= out@);
}

/// Tell what is reported while the other files are looked at.
fn report_extra(
    out: &mut Vec<u64>,
    par2: &Par2File,
    named: &IdTable<StoredFile>,
    extra_files: &[StoredFile],
    Ghost(c): Ghost<Case>,
)
    requires
        c == verify::case_of(*par2, named@, extra_files@),
        par2.files.wf(),
        par2.slice_checksums.wf(),
        named.wf(),
        0 < par2.block_size <= usize::MAX,
    ensures
        final(out)@ == old(out)@ + extra_reports(c, c.extra.len()),
{
    let m: usize = extra_files.len();
    assert(out@ + extra_reports(c, 0) =~= out@);
    for j in 0..m
        invariant
            m == extra_files@.len(),
            c == verify::case_of(*par2, named@, extra_files@),
            par2.files.wf(),
            par2.slice_checksums.wf(),
            named.wf(),
            0 < par2.block_size <= usize::MAX,
            out@ == old(out)@ + extra_reports(c, j as nat),
    {
        let ghost before = out@;
        if !is_path_taken(par2, named, &extra_files[j].path, Ghost(c)) {
            report_tried(out, par2, named, &extra_files[j], Ghost(c));
        }
        assert(out@ =~= old(out)@ + extra_reports(c, (j + 1) as nat));
    }
}

/// Tell the numbers of bytes that are reported while the files of a set are verified, each of the number
/// of all bytes.
pub fn report_verification(
    par2_data: &Par2File,
    named: &IdTable<StoredFile>,
    extra_files: &[StoredFile],
) -> (r: Vec<u64>)
    requires
        par2_data.files.wf(),
        par2_data.slice_checksums.wf(),
        named.wf(),
        0 < par2_data.block_size <= usize::MAX,
        creator::total_length(table_lengths(*par2_data)) <= u64::MAX,
    ensures
        r@ == verifying_reports(verify::case_of(*par2_data, named@, extra_files@)),
{
    let ghost c = verify::case_of(*par2_data, named@, extra_files@);
    let mut steps: Vec<u64> = Vec::new();
    report_named(&mut steps, par2_data, named, Ghost(c));
    report_extra(&mut steps, par2_data, named, extra_files, Ghost(c));
    let ghost all = named_reports(c, c.ids.len()) + extra_reports(c, c.extra.len());
    assert(steps@ =~= all);
    let n: usize = steps.len();
    let mut done: u64 = 0;
    let mut r: Vec<u64> = Vec::with_capacity(n);
    for i in 0..n
        invariant
            n == steps@.len(),
            steps@ == all,
            r@.len() == i,
            done == counted(all.take(i as int)),
            forall|k: int| 0 <= k < i ==> #[trigger] r@[k] == counted(all.take(k + 1)),
    {
        proof {
            assert(all.take(i + 1).drop_last() =~= all.take(i as int));
            assert(all.take(i + 1).last() == all[i as int]);
        }
        done = done.wrapping_add(steps[i]);
        r.push(done);
    }
    let total: u64 = total_bytes(par2_data);
    assert(table_lengths(*par2_data) =~= creator::lengths_of(c.files));
    r.push(total);
    assert(r@ =~= verifying_reports(c));
    r
}

/// The sum of some numbers.
pub open spec fn sum_of(steps: Seq<u64>) -> int
    decreases steps.len(),
{
    if steps.len() == 0 {
        0
    } else {
        steps[0] + sum_of(steps.skip(1))
    }
}

proof fn lemma_batches_add_up(length: int, block_size: int, count: int, from: int)
    requires
        0 <= length <= u64::MAX,
        block_size > 0,
        0 <= from <= count,
    ensures
        sum_of(batch_reports(length, block_size, count, from)) == parser::least(
            length,
            count * block_size,
        ) - parser::least(length, from * block_size),
    decreases count - from,
{
    if from < count {
        let to = parser::least(from + blocks_per_batch(block_size), count);
        lemma_batches_add_up(length, block_size, count, to);
        let rest = batch_reports(length, block_size, count, to);
        let all = batch_reports(length, block_size, count, from);
        assert(all.skip(1) =~= rest);
        assert(0 <= from * block_size <= to * block_size) by (nonlinear_arith)
            requires
                0 <= from <= to,
                block_size > 0,
        ;
    }
}

/// What is reported while a file with as many checksums as blocks is verified adds up to its length.
pub proof fn law_reports_add_up(
    data: Seq<u8>,
    file: FileView,
    checksums: Seq<ChecksumView>,
    block_size: int,
)
    requires
        data.len() == file.length,
        block_size > 0,
        checksums.len() == blocks::block_count(file.length as int, block_size),
    ensures
        sum_of(file_reports(data, file, Some(checksums), block_size)) == file.length,
{
    let length = file.length as int;
    let count = checksums.len() as int;
    lemma_batches_add_up(length, block_size, count, 0);
    blocks::law_block_count(length, block_size, count);
}

/// A percentage is the part that is done, rounded down.
pub proof fn law_percentages_are_rounded_down(done: int, total: int)
    requires
        0 <= done <= total,
        0 < total,
    ensures
        percent(done, total) * total <= 100 * done < (percent(done, total) + 1) * total,
        percent(total, total) == 100,
{
    let q = percent(done, total);
    assert(q * total <= 100 * done < (q + 1) * total) by (nonlinear_arith)
        requires
            q == done * 100 / total,
            total > 0,
    ;
    assert(total * 100 / total == 100) by (nonlinear_arith)
        requires
            total > 0,
    ;
}

/// A repair reports all chunks if they are fewer than 200, and otherwise every hundredth part of them, and
/// the last one.
pub proof fn law_hundredth_parts_are_reported(total: int, k: int, d: int)
    requires
        0 < total,
        0 <= k,
        0 <= d,
    ensures
        is_reported(total, total),
        total < 200 ==> is_reported(d, total),
        total >= 200 ==> is_reported(k * (total / 100), total),
        total >= 200 && k * (total / 100) < d < (k + 1) * (total / 100) && d != total
            ==> !is_reported(d, total),
{
    if total >= 200 {
        let part = total / 100;
        vstd::arithmetic::div_mod::lemma_mod_multiples_basic(k, part);
        if k * part < d < (k + 1) * part {
            assert((k + 1) * part == k * part + part) by (nonlinear_arith);
            vstd::arithmetic::div_mod::lemma_fundamental_div_mod_converse(d, part, k, d - k * part);
        }
    }
}

/// What is reported while a file is read in pieces adds up to its length, and no piece is larger than
/// 1 MiB.
pub proof fn law_pieces_add_up(length: int, i: int)
    requires
        0 <= length <= u64::MAX,
    ensures
        sum_of(piece_reports(length)) == length,
        0 <= i < piece_reports(length).len() ==> 0 < piece_reports(length)[i] <= 1048576,
        0 <= i < piece_reports(length).len() - 1 ==> piece_reports(length)[i] == 1048576,
    decreases length,
{
    let all = piece_reports(length);
    if length >= 1048576 {
        law_pieces_add_up(length - 1048576, i - 1);
        assert(all.skip(1) =~= piece_reports(length - 1048576));
        if i > 0 && i < all.len() {
            assert(all[i] == piece_reports(length - 1048576)[i - 1]);
        }
    } else if length > 0 {
        assert(all.skip(1).len() == 0);
        assert(sum_of(all.skip(1)) == 0);
        assert(all[0] == length);
    }
}

/// At last all bytes are reported, after one report for each number of bytes that were read.
pub proof fn law_verification_ends_with_all_bytes(c: Case, i: int)
    ensures
        verifying_reports(c).len() == named_reports(c, c.ids.len()).len() + extra_reports(
            c,
            c.extra.len(),
        ).len() + 1,
        verifying_reports(c).last() == creator::total_length(creator::lengths_of(c.files)) as u64,
        0 < i < verifying_reports(c).len() - 1 ==> verifying_reports(c)[i] == (
        verifying_reports(c)[i - 1] + (named_reports(c, c.ids.len()) + extra_reports(
            c,
            c.extra.len(),
        ))[i]) % 0x1_0000_0000_0000_0000,
{
    let steps = named_reports(c, c.ids.len()) + extra_reports(c, c.extra.len());
    if 0 < i < verifying_reports(c).len() - 1 {
        assert(steps.take(i + 1).drop_last() =~= steps.take(i));
        assert(steps.take(i + 1).last() == steps[i]);
        assert(steps.take(i - 1 + 1) =~= steps.take(i));
    }
}

proof fn lemma_sum_of_both(a: Seq<u64>, b: Seq<u64>)
    ensures
        sum_of(a + b) == sum_of(a) + sum_of(b),
    decreases a.len(),
{
    if a.len() == 0 {
        assert(a + b =~= b);
    } else {
        lemma_sum_of_both(a.skip(1), b);
        assert((a + b).skip(1) =~= a.skip(1) + b);
    }
}

/// While files are verified that are all under their names, with as many checksums as blocks, just their
/// bytes are reported.
pub proof fn law_bytes_of_files_are_reported(c: Case, n: nat)
    requires
        n <= c.ids.len(),
        c.ids.len() == c.files.len(),
        c.block_size > 0,
        forall|i: int|
            #![trigger c.ids[i]]
            0 <= i < c.ids.len() ==> {
                &&& c.named.dom().contains(c.ids[i])
                &&& c.named[c.ids[i]].data@.len() == c.files[i].length
                &&& c.checksums.dom().contains(c.ids[i])
                &&& c.checksums[c.ids[i]].len() == blocks::block_count(
                    c.files[i].length as int,
                    c.block_size as int,
                )
            },
    ensures
        sum_of(named_reports(c, n)) == creator::total_length(
            creator::lengths_of(c.files).take(n as int),
        ),
    decreases n,
{
    let lengths = creator::lengths_of(c.files);
    if n == 0 {
        assert(lengths.take(0) =~= seq![]);
    } else {
        let i = n - 1;
        law_bytes_of_files_are_reported(c, i as nat);
        let id = c.ids[i];
        let here = file_reports(c.named[id].data@, c.files[i], c.sums(i), c.block_size as int);
        lemma_sum_of_both(named_reports(c, i as nat), here);
        law_reports_add_up(
            c.named[id].data@,
            c.files[i],
            c.checksums[id],
            c.block_size as int,
        );
        assert(lengths.take(n as int).drop_last() =~= lengths.take(i));
        assert(lengths.take(n as int).last() == c.files[i].length);
    }
}

} // verus!
