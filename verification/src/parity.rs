//! What recovery blocks hold: sums of the data blocks, weighted with powers of 2.

use vstd::prelude::*;

use crate::blocks;
use crate::constants;
use crate::creator;
use crate::creator::Par2Creator;
use crate::detection;
use crate::galois::bulk;
use crate::galois::field;
use crate::galois::sums;
use crate::layout;
use crate::limits;
use crate::ordering;
use crate::parser::FileView;
use crate::reed_solomon;
use crate::writer;

verus! {

/// The element that two bytes hold, the lower byte first.
pub open spec fn element(block: Seq<u8>, s: int) -> int {
    block[2 * s] + 256 * block[2 * s + 1]
}

/// The exponents of 2 in the constants of the data blocks: the positive numbers that none of 3, 5, 17 and
/// 257 divides, in ascending order, and none left out.
pub open spec fn are_exponents(exponents: Seq<nat>) -> bool {
    &&& forall|i: int|
        0 <= i < exponents.len() ==> 1 <= #[trigger] exponents[i] && exponents[i] % 3 != 0
            && exponents[i] % 5 != 0 && exponents[i] % 17 != 0 && exponents[i] % 257 != 0
    &&& forall|i: int, j: int|
        0 <= i < j < exponents.len() ==> #[trigger] exponents[i] < #[trigger] exponents[j]
    &&& forall|m: nat|
        exponents.len() > 0 && 1 <= m <= exponents.last() && m % 3 != 0 && m % 5 != 0 && m % 17 != 0
            && m % 257 != 0 ==> #[trigger] exponents.contains(m)
}

proof fn lemma_exponents_are(exponents: Seq<nat>, i: int)
    requires
        are_exponents(exponents),
        0 <= i < exponents.len(),
    ensures
        exponents[i] == reed_solomon::exponents_from(1, exponents.len())[i],
    decreases i,
{
    let n = exponents.len();
    let e = reed_solomon::exponents_from(1, n);
    constants::law_exponents_of_constants(n);
    assert forall|k: int| 0 <= k < i implies exponents[k] == e[k] by {
        lemma_exponents_are(exponents, k);
    }
    let m = exponents[i];
    let q = e[i];
    if m < q {
        assert(e[i] <= e.last()) by {
            if i < n - 1 {
                assert(e[i] < e[n - 1]);
            }
        }
        assert(reed_solomon::is_constant_exponent(m));
        assert(e.contains(m));
        let k = choose|k: int| 0 <= k < e.len() && e[k] == m;
        if k < i {
            assert(exponents[k] == e[k]);
            assert(exponents[k] < exponents[i]);
        } else if i < k {
            assert(e[i] < e[k]);
        }
    } else if q < m {
        assert(exponents[i] <= exponents.last()) by {
            if i < n - 1 {
                assert(exponents[i] < exponents[n - 1]);
            }
        }
        assert(1 <= q && reed_solomon::is_constant_exponent(q));
        assert(exponents.contains(q));
        let k = choose|k: int| 0 <= k < exponents.len() && exponents[k] == q;
        if k < i {
            assert(exponents[k] == e[k]);
            assert(e[k] < e[i]);
        } else if i < k {
            assert(exponents[i] < exponents[k]);
        }
    }
}

/// The sum over the first `n` data blocks of element `s` of each, times 2 to the power of the exponent
/// of the block times `e`.
pub open spec fn parity(
    data: Seq<Seq<u8>>,
    exponents: Seq<nat>,
    e: nat,
    s: int,
    n: nat,
) -> u16
    decreases n,
{
    if n == 0 {
        0
    } else {
        parity(data, exponents, e, s, (n - 1) as nat) ^ field::product(
            element(data[n - 1], s) as u16,
            field::power(2, exponents[n - 1] * e),
        )
    }
}

proof fn lemma_element(block: Seq<u8>, s: int)
    requires
        0 <= s < block.len() / 2,
    ensures
        bulk::words(block)[s] == element(block, s),
{
    let lo = block[2 * s];
    let hi = block[2 * s + 1];
    assert(((lo as u16) | ((hi as u16) << 8)) == lo + 256 * hi) by (bit_vector);
}

proof fn lemma_parity(
    data: Seq<Seq<u8>>,
    exponents: Seq<nat>,
    block_size: nat,
    e: nat,
    s: int,
    n: nat,
)
    requires
        are_exponents(exponents),
        exponents.len() == data.len(),
        n <= data.len(),
        forall|i: int| 0 <= i < data.len() ==> (#[trigger] data[i]).len() == block_size,
        0 <= s < block_size / 2,
    ensures
        sums::xor_sum(
            reed_solomon::symbol_terms(
                reed_solomon::par2_constants(data.len()),
                creator::words_of_blocks(data),
                e,
                s,
            ),
            n,
        ) == parity(data, exponents, e, s, n),
    decreases n,
{
    if n > 0 {
        let m = n - 1;
        lemma_parity(data, exponents, block_size, e, s, m as nat);
        lemma_exponents_are(exponents, m);
        constants::law_exponents_of_constants(data.len());
        field::law_power_multiplies(2, exponents[m], e);
        assert(data[m].len() == block_size);
        lemma_element(data[m], s);
        assert(creator::words_of_blocks(data)[m] == bulk::words(data[m]));
    }
}

/// Recovery block `e` holds the sums of the data blocks, the block with index `i` weighted with the
/// constant of the block to the power `e`: 2 to the power of the `i`th exponent times `e`.
#[verifier::rlimit(40)]
pub proof fn law_recovery_data_are_weighted_sums(
    data: Seq<Seq<u8>>,
    exponents: Seq<nat>,
    block_size: nat,
    e: nat,
    s: int,
)
    requires
        are_exponents(exponents),
        exponents.len() == data.len(),
        block_size % 2 == 0,
        forall|i: int| 0 <= i < data.len() ==> (#[trigger] data[i]).len() == block_size,
        0 <= s < block_size / 2,
    ensures
        creator::recovery_data(data, block_size, e).len() == block_size,
        element(creator::recovery_data(data, block_size, e), s) == parity(
            data,
            exponents,
            e,
            s,
            data.len(),
        ),
{
    let out = creator::recovery_data(data, block_size, e);
    let constants = reed_solomon::par2_constants(data.len());
    let words = creator::words_of_blocks(data);
    let f = reed_solomon::symbol_terms(constants, words, e, s);
    let g = |i: int| field::product(words[i][s], field::power(constants[i], e));
    lemma_parity(data, exponents, block_size, e, s, data.len());
    sums::lemma_sum_equal(f, g, data.len());
    assert(out.len() == 2 * (block_size / 2));
    let want = reed_solomon::recovery_words(constants, words, e, block_size / 2);
    bulk::law_words_of_bytes(want);
    lemma_element(out, s);
    assert(bulk::words(out)[s] == want[s]);
}

/// The recovery blocks of a creator: as many as hold the recovery bytes, with the exponents 0, 1, 2 and
/// so on, each of the size of a block.
pub proof fn law_creators_make_recovery_blocks(
    c: Par2Creator,
    files: Seq<FileView>,
    recovery_bytes: u64,
    count: int,
    e: int,
)
    requires
        c.size() > 0,
        c.size() % 2 == 0,
        limits::is_count(count, recovery_bytes as int, c.size()),
    ensures
        c.recovery(files, recovery_bytes).len() == count,
        0 <= e < count <= u32::MAX ==> c.recovery(files, recovery_bytes)[e].0 == e && c.recovery(
            files,
            recovery_bytes,
        )[e].1 == creator::recovery_data(c.data(files), c.size() as nat, e as nat),
{
    limits::law_count_is_least(count, recovery_bytes as int, c.size());
}

/// The data blocks of a creator are those of its files, one file after the other, the files in the order
/// in which the main packet lists their IDs.
pub proof fn law_creators_number_blocks_by_the_main_packet(
    c: Par2Creator,
    files: Seq<FileView>,
    starts: Seq<int>,
    f: int,
    j: int,
)
    requires
        c.size() > 0,
        files.len() == c.input_files@.len(),
        forall|k: int| 0 <= k < files.len() ==> (#[trigger] files[k]).file_id.len() == 16,
        limits::are_counted(
            Seq::new(
                files.len(),
                |k: int|
                    c.input_files@[writer::id_order(creator::ids_of(files))[k]].data@.len() as u64,
            ),
            c.size(),
            starts,
        ),
        0 <= f < files.len(),
        0 <= j < starts[f + 1] - starts[f],
    ensures
        ({
            let k = writer::id_order(creator::ids_of(files))[f];
            &&& 0 <= k < files.len()
            &&& writer::sorted_ids(creator::ids_of(files))[f] == files[k].file_id
            &&& c.data(files).len() == starts.last()
            &&& starts[f] + j < starts.last()
            &&& c.data(files)[starts[f] + j] == detection::bytes_of_block(
                c.input_files@[k].data@,
                c.size() as nat,
                j,
            )
        }),
{
    let ids = creator::ids_of(files);
    let order = writer::id_order(ids);
    let size = c.size();
    let truth = c.ordered(files);
    layout::law_ids_are_sorted(ids);
    ordering::law_stable_order_exists(writer::id_keys(ids));
    assert(ordering::is_stable_order(writer::id_keys(ids), order));
    let lengths = Seq::new(
        files.len(),
        |k: int| c.input_files@[order[k]].data@.len() as u64,
    );
    assert forall|i: int| 0 <= i < truth.len() implies #[trigger] lengths[i] == truth[i].len() by {
        assert(0 <= order[i] < files.len());
        let file = c.input_files@[order[i]];
        assert(file.data.len() == file.data@.len());
    }
    lemma_first_block_is(truth, lengths, size, starts, f);
    lemma_first_block_is(truth, lengths, size, starts, truth.len() as int);
    assert(truth.take(truth.len() as int) =~= truth);
    limits::law_count_is_least(starts[f + 1] - starts[f], lengths[f] as int, size);
    blocks::law_block_numbers(truth, size as nat, f, j);
    detection::lemma_block_bytes(truth[f], size as nat, j);
}

proof fn lemma_first_block_is(
    truth: Seq<Seq<u8>>,
    lengths: Seq<u64>,
    size: int,
    starts: Seq<int>,
    f: int,
)
    requires
        size > 0,
        lengths.len() == truth.len(),
        forall|i: int| 0 <= i < truth.len() ==> #[trigger] lengths[i] == truth[i].len(),
        limits::are_counted(lengths, size, starts),
        0 <= f <= truth.len(),
    ensures
        blocks::first_block(truth, size as nat, f) == starts[f],
    decreases f,
{
    if f == 0 {
        assert(truth.take(0) =~= seq![]);
    } else {
        lemma_first_block_is(truth, lengths, size, starts, f - 1);
        blocks::lemma_first_block(truth, size as nat, f - 1);
        assert(limits::is_count(starts[f - 1 + 1] - starts[f - 1], lengths[f - 1] as int, size));
        limits::law_count_is_least(starts[f - 1 + 1] - starts[f - 1], lengths[f - 1] as int, size);
    }
}

} // verus!
