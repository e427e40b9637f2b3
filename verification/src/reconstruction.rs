//! Why reconstruction works: missing blocks come back as they were, and consecutive recovery
//! blocks always suffice.

use vstd::prelude::*;

use crate::elimination;
use crate::galois::bulk;
use crate::galois::field;
use crate::galois::order;
use crate::galois::sums;
use crate::reed_solomon;
use crate::reed_solomon::ReconstructionTransform;
use crate::solver;

verus! {

/// The blocks of `missing` and those of `present` are all `n` data blocks, each exactly once.
pub open spec fn is_partition(missing: Seq<usize>, present: Seq<usize>, n: nat) -> bool {
    sums::is_permutation(solver::indices(missing) + solver::indices(present), n)
}

/// The transform was made for the given missing and present blocks and recovery exponents.
pub open spec fn is_transform_for(
    t: ReconstructionTransform,
    constants: Seq<u16>,
    missing: Seq<usize>,
    present: Seq<usize>,
    exponents: Seq<nat>,
) -> bool {
    let m = missing.len();
    &&& t.fits(m, present.len())
    &&& elimination::solves(
        reed_solomon::vandermonde(constants, missing, exponents),
        solver::indices(t.row_order@),
        t.scale_factors@,
        bulk::row_views(t.elimination_factors@),
        m,
    )
    &&& bulk::row_views(t.vandermonde_coeffs@) == reed_solomon::vandermonde(
        constants,
        present,
        exponents,
    )
}

proof fn lemma_right_hand_side(
    constants: Seq<u16>,
    data: Seq<Seq<u16>>,
    missing: Seq<usize>,
    present: Seq<usize>,
    e: nat,
    s: int,
)
    requires
        is_partition(missing, present, data.len()),
    ensures
        reed_solomon::recovery_symbol(constants, data, e, s) == sums::xor_sum(
            |k: int|
                field::product(
                    data[missing[k] as int][s],
                    field::power(constants[missing[k] as int], e),
                ),
            missing.len(),
        ) ^ sums::xor_sum(
            |c: int|
                field::product(
                    data[present[c] as int][s],
                    field::power(constants[present[c] as int], e),
                ),
            present.len(),
        ),
{
    let f = |i: int| field::product(data[i][s], field::power(constants[i], e));
    let at = solver::indices(missing) + solver::indices(present);
    let m = missing.len();
    let p = present.len();
    sums::lemma_sum_permuted(f, at, data.len());
    let g = |k: int| f(at[k]);
    sums::lemma_sum_split(g, m, p);
    let fm = |k: int|
        field::product(
            data[missing[k] as int][s],
            field::power(constants[missing[k] as int], e),
        );
    let fp = |c: int|
        field::product(
            data[present[c] as int][s],
            field::power(constants[present[c] as int], e),
        );
    assert forall|k: int| 0 <= k < m implies #[trigger] g(k) == fm(k) by {
        assert(at[k] == missing[k] as int);
    }
    sums::lemma_sum_equal(g, fm, m);
    let h = |i: int| g(m + i);
    assert forall|c: int| 0 <= c < p implies #[trigger] h(c) == fp(c) by {
        assert(at[m + c] == present[c] as int);
    }
    sums::lemma_sum_equal(h, fp, p);
}

/// Reconstruction gives back the missing data blocks: if the recovery blocks are those of the
/// data, and the present blocks are unchanged, then what the row operations give for a missing
/// block is that block.
pub proof fn law_reconstruction(
    t: ReconstructionTransform,
    constants: Seq<u16>,
    data: Seq<Seq<u16>>,
    missing: Seq<usize>,
    present: Seq<usize>,
    exponents: Seq<nat>,
    recovery: Seq<Seq<u16>>,
    known: Seq<Seq<u16>>,
    symbols: nat,
    row: int,
)
    requires
        is_transform_for(t, constants, missing, present, exponents),
        is_partition(missing, present, data.len()),
        exponents.len() == missing.len(),
        recovery.len() >= missing.len(),
        known.len() == present.len(),
        forall|i: int| 0 <= i < data.len() ==> (#[trigger] data[i]).len() == symbols,
        forall|r: int|
            0 <= r < missing.len() ==> #[trigger] recovery[r] == reed_solomon::recovery_words(
                constants,
                data,
                exponents[r],
                symbols,
            ),
        forall|c: int|
            0 <= c < present.len() ==> #[trigger] known[c] == data[present[c] as int],
        0 <= row < missing.len(),
    ensures
        reed_solomon::solved_words(t, recovery, known, row, symbols) == data[missing[row] as int],
{
    let m = missing.len();
    let rows = solver::indices(t.row_order@);
    let coeffs = bulk::row_views(t.vandermonde_coeffs@);
    let matrix = reed_solomon::vandermonde(constants, missing, exponents);
    let got = reed_solomon::solved_words(t, recovery, known, row, symbols);
    let at = solver::indices(missing) + solver::indices(present);
    assert(at[row] == missing[row] as int);
    let block = data[missing[row] as int];
    assert(block.len() == symbols);
    assert forall|s: int| 0 <= s < symbols implies got[s] == block[s] by {
        let v = Seq::new(m, |k: int| data[missing[k] as int][s]);
        let rhs = reed_solomon::right_hand_side(rows, coeffs, recovery, known, s);
        assert forall|r: int| 0 <= r < m implies #[trigger] rhs[r] == elimination::row_product(
            matrix[rows[r]],
            v,
            m,
        ) by {
            let q = rows[r];
            assert(0 <= q < m);
            let e = exponents[q];
            assert(recovery[q] == reed_solomon::recovery_words(constants, data, e, symbols));
            lemma_right_hand_side(constants, data, missing, present, e, s);
            let fm = |k: int|
                field::product(
                    data[missing[k] as int][s],
                    field::power(constants[missing[k] as int], e),
                );
            let fp = |c: int|
                field::product(
                    data[present[c] as int][s],
                    field::power(constants[present[c] as int], e),
                );
            let kt = reed_solomon::known_terms(coeffs, known, q, s);
            assert forall|c: int| 0 <= c < present.len() implies #[trigger] kt(c) == fp(c) by {
                assert(known[c] == data[present[c] as int]);
                assert(coeffs[q] == reed_solomon::vandermonde(constants, present, exponents)[q]);
            }
            sums::lemma_sum_equal(kt, fp, present.len());
            let rp = |j: int| field::product(v[j], matrix[q][j]);
            assert forall|k: int| 0 <= k < m implies #[trigger] rp(k) == fm(k) by {}
            sums::lemma_sum_equal(rp, fm, m);
            field::law_xor(
                sums::xor_sum(fm, m),
                sums::xor_sum(fp, present.len()),
                0,
            );
        }
        elimination::lemma_solves_system(
            matrix,
            rows,
            t.scale_factors@,
            bulk::row_views(t.elimination_factors@),
            m,
            v,
            rhs,
        );
    }
    assert(got =~= block);
}

/// Reconstruction gives back the bytes of the missing data blocks.
pub proof fn law_reconstructed_bytes(
    t: ReconstructionTransform,
    constants: Seq<u16>,
    data: Seq<Vec<u8>>,
    missing: Seq<usize>,
    present: Seq<usize>,
    exponents: Seq<nat>,
    recovery: Seq<Vec<u8>>,
    known: Seq<Vec<u8>>,
    chunk_size: nat,
    row: int,
)
    requires
        is_transform_for(t, constants, missing, present, exponents),
        is_partition(missing, present, data.len()),
        exponents.len() == missing.len(),
        chunk_size % 2 == 0,
        reed_solomon::chunks_sized(data, chunk_size),
        recovery.len() >= missing.len(),
        known.len() == present.len(),
        forall|r: int|
            0 <= r < missing.len() ==> (#[trigger] recovery[r])@ == bulk::word_bytes(
                reed_solomon::recovery_words(
                    constants,
                    reed_solomon::block_words(data),
                    exponents[r],
                    chunk_size / 2,
                ),
            ),
        forall|c: int|
            0 <= c < present.len() ==> (#[trigger] known[c])@ == data[present[c] as int]@,
        0 <= row < missing.len(),
    ensures
        bulk::word_bytes(
            reed_solomon::solved_words(
                t,
                reed_solomon::block_words(recovery),
                reed_solomon::block_words(known),
                row,
                chunk_size / 2,
            ),
        ) == data[missing[row] as int]@,
{
    let dw = reed_solomon::block_words(data);
    let rw = reed_solomon::block_words(recovery);
    let kw = reed_solomon::block_words(known);
    let symbols = chunk_size / 2;
    assert forall|i: int| 0 <= i < dw.len() implies (#[trigger] dw[i]).len() == symbols by {
        assert(data[i]@.len() == chunk_size);
    }
    assert forall|r: int| 0 <= r < missing.len() implies #[trigger] rw[r]
        == reed_solomon::recovery_words(constants, dw, exponents[r], symbols) by {
        assert(rw[r] == bulk::words(recovery[r]@));
        bulk::law_words_of_bytes(
            reed_solomon::recovery_words(constants, dw, exponents[r], symbols),
        );
    }
    let at = solver::indices(missing) + solver::indices(present);
    assert forall|c: int| 0 <= c < present.len() implies #[trigger] kw[c]
        == dw[present[c] as int] by {
        assert(at[missing.len() + c] == present[c] as int);
        assert(0 <= at[missing.len() + c] < data.len());
        assert(known[c]@ == data[present[c] as int]@);
    }
    law_reconstruction(
        t,
        constants,
        dw,
        missing,
        present,
        exponents,
        rw,
        kw,
        symbols,
        row,
    );
    assert(at[row] == missing[row] as int);
    assert(0 <= at[row] < data.len());
    assert(data[missing[row] as int]@.len() == chunk_size);
    bulk::law_bytes_of_words(data[missing[row] as int]@);
}

/// A sum of the nodes' powers, weighted by `u`, over the first `n` nodes.
spec fn power_sum(nodes: Seq<u16>, u: Seq<u16>, n: nat, e: nat) -> u16 {
    sums::xor_sum(|j: int| field::product(u[j], field::power(nodes[j], e)), n)
}

/// Weights under which the power sums of the exponents below `n` of `n` different nodes vanish are
/// all 0.
proof fn lemma_power_sums_vanish(nodes: Seq<u16>, u: Seq<u16>, n: nat)
    requires
        n <= nodes.len(),
        n <= u.len(),
        forall|i: int, j: int| 0 <= i < j < n ==> #[trigger] nodes[i] != #[trigger] nodes[j],
        forall|e: nat| e < n ==> #[trigger] power_sum(nodes, u, n, e) == 0,
    ensures
        forall|j: int| 0 <= j < n ==> #[trigger] u[j] == 0,
    decreases n,
{
    if n > 0 {
        let m = (n - 1) as nat;
        let last = nodes[m as int];
        let w = Seq::new(m, |j: int| field::product(u[j], nodes[j] ^ last));
        assert forall|e: nat| e < m implies #[trigger] power_sum(nodes, w, m, e) == 0 by {
            let f = |j: int| field::product(u[j], field::power(nodes[j], e + 1));
            let g = |j: int| field::product(last, field::product(u[j], field::power(nodes[j], e)));
            let g0 = |j: int| field::product(u[j], field::power(nodes[j], e));
            let h = |j: int| field::product(w[j], field::power(nodes[j], e));
            assert(power_sum(nodes, u, n, e + 1) == 0);
            assert(power_sum(nodes, u, n, e) == 0);
            sums::lemma_sum_scale(last, g0, n);
            sums::lemma_sum_equal(g, |j: int| field::product(last, g0(j)), n);
            field::law_product_zero(last);
            sums::lemma_sum_add(f, g, n);
            let fg = |j: int| f(j) ^ g(j);
            field::law_xor(0, 0, 0);
            assert(sums::xor_sum(fg, n) == 0);
            // The term of the last node vanishes, and the others are those of the new weights.
            assert(f(m as int) == g(m as int)) by {
                lemma_shift(u[m as int], last, last, e);
            }
            field::law_xor(f(m as int), 0, 0);
            field::law_xor(sums::xor_sum(fg, m), 0, 0);
            assert(fg(m as int) == 0);
            assert(sums::xor_sum(fg, n) == sums::xor_sum(fg, m) ^ fg(m as int));
            assert forall|j: int| 0 <= j < m implies #[trigger] h(j) == fg(j) by {
                lemma_shift(u[j], nodes[j], last, e);
            }
            sums::lemma_sum_equal(h, fg, m);
        }
        assert forall|i: int, j: int| 0 <= i < j < m implies #[trigger] nodes[i]
            != #[trigger] nodes[j] by {}
        lemma_power_sums_vanish(nodes, w, m);
        assert forall|j: int| 0 <= j < m implies #[trigger] u[j] == 0 by {
            assert(w[j] == 0);
            order::law_no_zero_divisors(u[j], nodes[j] ^ last);
            assert(nodes[j] != nodes[m as int]);
            if nodes[j] ^ last == 0 {
                lemma_xor_zero(nodes[j], last);
            }
        }
        let f = |j: int| field::product(u[j], field::power(nodes[j], 0));
        assert(power_sum(nodes, u, n, 0) == 0);
        assert forall|j: int| 0 <= j < n && j != m implies #[trigger] f(j) == 0 by {
            assert(u[j] == 0);
            field::law_product_zero(field::power(nodes[j], 0));
        }
        sums::lemma_sum_single(f, n, m as int);
        assert(field::power(last, 0) == 1);
        field::law_product_one(u[m as int]);
        assert(u[m as int] == 0);
    }
}

proof fn lemma_xor_zero(a: u16, b: u16)
    requires
        a ^ b == 0,
    ensures
        a == b,
{
    field::law_xor(a, b, 0);
    field::law_xor(b, 0, 0);
}

/// One power more of the node, less the last node times the same power, is the power times the
/// difference of the nodes.
proof fn lemma_shift(u: u16, node: u16, last: u16, e: nat)
    ensures
        field::product(field::product(u, node ^ last), field::power(node, e)) == field::product(
            u,
            field::power(node, e + 1),
        ) ^ field::product(last, field::product(u, field::power(node, e))),
        node == last ==> field::product(u, field::power(node, e + 1)) == field::product(
            last,
            field::product(u, field::power(node, e)),
        ),
{
    let p = field::power(node, e);
    assert(field::power(node, e + 1) == field::product(node, p));
    field::law_product_associates(u, node ^ last, p);
    field::law_product_distributes(node, last, p);
    field::law_product_distributes(field::product(node, p), field::product(last, p), u);
    field::law_product_associates(u, last, p);
    field::law_product_associates(last, u, p);
    field::law_product_commutes(u, last);
}

/// Consecutive recovery blocks always suffice: with exponents that follow each other, and
/// different constants for the missing blocks, the system of the missing blocks is not singular.
pub proof fn law_consecutive_exponents_suffice(
    constants: Seq<u16>,
    missing: Seq<usize>,
    first: nat,
)
    requires
        forall|k: int|
            0 <= k < missing.len() ==> constants[(#[trigger] missing[k]) as int] != 0,
        forall|i: int, j: int|
            0 <= i < j < missing.len() ==> constants[(#[trigger] missing[i]) as int]
                != constants[(#[trigger] missing[j]) as int],
    ensures
        !elimination::singular(
            reed_solomon::vandermonde(
                constants,
                missing,
                Seq::new(missing.len(), |r: int| (first + r) as nat),
            ),
            missing.len(),
        ),
{
    let m = missing.len();
    let exponents = Seq::new(m, |r: int| (first + r) as nat);
    let matrix = reed_solomon::vandermonde(constants, missing, exponents);
    if elimination::singular(matrix, m) {
        let v = choose|v: Seq<u16>| #[trigger] elimination::in_kernel(matrix, m, v);
        let nodes = Seq::new(m, |k: int| constants[missing[k] as int]);
        let u = Seq::new(m, |k: int| field::product(v[k], field::power(nodes[k], first)));
        assert forall|e: nat| e < m implies #[trigger] power_sum(nodes, u, m, e) == 0 by {
            let f = |j: int| field::product(u[j], field::power(nodes[j], e));
            let g = |j: int| field::product(v[j], matrix[e as int][j]);
            assert forall|j: int| 0 <= j < m implies #[trigger] f(j) == g(j) by {
                field::law_product_associates(
                    v[j],
                    field::power(nodes[j], first),
                    field::power(nodes[j], e),
                );
                field::law_power_adds(nodes[j], first, e);
            }
            sums::lemma_sum_equal(f, g, m);
            assert(elimination::row_product(matrix[e as int], v, m) == 0);
        }
        assert forall|i: int, j: int| 0 <= i < j < m implies #[trigger] nodes[i]
            != #[trigger] nodes[j] by {
            assert(constants[missing[i] as int] != constants[missing[j] as int]);
        }
        lemma_power_sums_vanish(nodes, u, m);
        let j = choose|j: int| 0 <= j < m && #[trigger] v[j] != 0;
        assert(u[j] == 0);
        assert(constants[missing[j] as int] != 0);
        order::law_no_zero_divisors(v[j], field::power(nodes[j], first));
        lemma_power_nonzero(nodes[j], first);
    }
}

proof fn lemma_power_nonzero(a: u16, n: nat)
    requires
        a != 0,
    ensures
        field::power(a, n) != 0,
    decreases n,
{
    if n > 0 {
        lemma_power_nonzero(a, (n - 1) as nat);
        if field::power(a, n) == 0 {
            order::law_no_zero_divisors(a, field::power(a, (n - 1) as nat));
        }
    }
}

} // verus!
