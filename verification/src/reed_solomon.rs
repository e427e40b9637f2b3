//! The Reed-Solomon code of PAR2 over GF(2^16).
//!
//! Data block `i` has a constant, a power of 2. The recovery block of exponent `e` is the sum of all
//! data blocks, each times its constant raised to `e`. Missing data blocks are found by solving the
//! linear system that the recovery blocks give.

use vstd::prelude::*;
use vstd::string::*;

use crate::elimination;
use crate::constants;
use crate::galois::bulk;
use crate::galois::element::{gf_div, gf_mul, gf_pow};
use crate::galois::field;
use crate::galois::ops::{bytes_to_u16_simd, gf_mul_slice, gf_muladd};
use crate::galois::order;
use crate::galois::region::gf_muladd_block_regions;
use crate::galois::simd::kernel;
use crate::galois::sums;
use crate::solver;
use crate::text;

verus! {

/// The exponents of 2 that give a constant: those prime to 65535.
pub open spec fn is_constant_exponent(n: nat) -> bool {
    n % 3 != 0 && n % 5 != 0 && n % 17 != 0 && n % 257 != 0
}

/// How far `n` is from the next number that leaves 1 divided by 65535.
pub open spec fn distance(n: nat) -> nat {
    ((65536 - (n % 65535)) % 65535) as nat
}

/// Numbers that give no constant come nearer to one that does, step by step.
pub proof fn lemma_distance(n: nat)
    ensures
        !is_constant_exponent(n) ==> distance(n + 1) < distance(n),
        distance(n) < 65535,
{
    let r = n % 65535;
    if r == 1 {
        assert(n % 3 == 1 && n % 5 == 1 && n % 17 == 1 && n % 257 == 1);
    } else if r == 65534 {
        assert((n + 1) % 65535 == 0);
    } else {
        assert((n + 1) % 65535 == r + 1);
    }
}

/// The first `count` exponents from `n` on that give a constant.
pub open spec fn exponents_from(n: nat, count: nat) -> Seq<nat>
    decreases count, distance(n),
{
    if count == 0 {
        seq![]
    } else if is_constant_exponent(n) {
        seq![n] + exponents_from(n + 1, (count - 1) as nat)
    } else {
        proof {
            lemma_distance(n);
        }
        exponents_from(n + 1, count)
    }
}

/// The constants of the first `count` data blocks.
pub open spec fn par2_constants(count: nat) -> Seq<u16> {
    let e = exponents_from(1, count);
    Seq::new(count, |i: int| field::power(2, e[i]))
}

pub proof fn lemma_exponents(n: nat, count: nat)
    ensures
        exponents_from(n, count).len() == count,
        forall|i: int|
            0 <= i < count ==> n <= #[trigger] exponents_from(n, count)[i] && is_constant_exponent(
                exponents_from(n, count)[i],
            ),
        forall|i: int, j: int|
            0 <= i < j < count ==> #[trigger] exponents_from(n, count)[i]
                < #[trigger] exponents_from(n, count)[j],
    decreases count, distance(n),
{
    if count > 0 {
        lemma_distance(n);
        if is_constant_exponent(n) {
            let rest = exponents_from(n + 1, (count - 1) as nat);
            lemma_exponents(n + 1, (count - 1) as nat);
            let all = seq![n] + rest;
            assert forall|i: int| 0 <= i < count implies n <= #[trigger] all[i]
                && is_constant_exponent(all[i]) by {
                if i > 0 {
                    assert(all[i] == rest[i - 1]);
                }
            }
            assert forall|i: int, j: int| 0 <= i < j < count implies #[trigger] all[i]
                < #[trigger] all[j] by {
                assert(all[j] == rest[j - 1]);
                if i > 0 {
                    assert(all[i] == rest[i - 1]);
                }
            }
        } else {
            lemma_exponents(n + 1, count);
        }
    }
}

/// No constant is 0.
pub proof fn lemma_constants_nonzero(count: nat, i: int)
    requires
        0 <= i < count,
    ensures
        par2_constants(count)[i] != 0,
{
    order::law_power_of_two_nonzero(exponents_from(1, count)[i]);
}

/// Generate the constants of the first `count` data blocks: the powers of 2 whose exponents none of 3,
/// 5, 17 and 257 divides. None is 0, up to 32768 of them differ, and fewer are the first of more.
pub fn generate_par2_constants(count: usize) -> (constants: Vec<u16>)
    requires
        count <= u32::MAX,
    ensures
        constants@ == par2_constants(count as nat),
        constants@.len() == count,
        forall|i: int| 0 <= i < count ==> #[trigger] constants@[i] != 0,
        count <= constants::DISTINCT_CONSTANTS ==> forall|i: int, j: int|
            0 <= i < j < count ==> #[trigger] constants@[i] != #[trigger] constants@[j],
        forall|k: nat| k <= count ==> #[trigger] par2_constants(k) == constants@.take(k as int),
{
    let mut constants: Vec<u16> = Vec::with_capacity(count);
    let mut n: u64 = 1;
    let ghost all = exponents_from(1, count as nat);
    proof {
        lemma_exponents(1, count as nat);
        lemma_distance(1);
        assert(all.skip(0) =~= all);
    }
    while constants.len() < count
        invariant
            count <= u32::MAX,
            constants@.len() <= count,
            all == exponents_from(1, count as nat),
            all.len() == count,
            all.skip(constants@.len() as int) == exponents_from(
                n as nat,
                (count - constants@.len()) as nat,
            ),
            forall|i: int|
                0 <= i < constants@.len() ==> #[trigger] constants@[i] == field::power(2, all[i]),
            n + distance(n as nat) <= 65535 * (constants@.len() + 1) + 1,
        decreases count - constants.len(), distance(n as nat),
    {
        let ghost k = constants@.len() as int;
        proof {
            lemma_distance(n as nat);
            lemma_distance((n + 1) as nat);
            assert(65535 * (k + 1) + 1 <= 65535 * 0x1_0000_0000 + 1) by (nonlinear_arith)
                requires
                    k + 1 <= 0x1_0000_0000,
            ;
        }
        if n % 3 != 0 && n % 5 != 0 && n % 17 != 0 && n % 257 != 0 {
            proof {
                let rest = exponents_from((n + 1) as nat, (count - k - 1) as nat);
                assert(all.skip(k) == seq![n as nat] + rest);
                assert(all[k] == all.skip(k)[0]);
                assert(all.skip(k + 1) =~= all.skip(k).skip(1));
                assert(all.skip(k + 1) =~= rest);
            }
            constants.push(gf_pow2(n));
            proof {
                assert(65535 * (k + 2) + 1 == 65535 * (k + 1) + 1 + 65535) by (nonlinear_arith);
                lemma_distance_step(n as nat);
            }
        } else {
            proof {
                lemma_distance_step(n as nat);
            }
        }
        n = n + 1;
    }
    proof {
        let n = count as nat;
        assert(constants@ =~= par2_constants(n));
        assert forall|i: int| 0 <= i < count implies #[trigger] constants@[i] != 0 by {
            lemma_constants_nonzero(n, i);
        }
        if n <= constants::DISTINCT_CONSTANTS {
            assert forall|i: int, j: int| 0 <= i < j < count implies #[trigger] constants@[i]
                != #[trigger] constants@[j] by {
                constants::law_constants_differ(n, i, j);
            }
        }
        assert forall|k: nat| k <= count implies #[trigger] par2_constants(k) == constants@.take(
            k as int,
        ) by {
            constants::law_fewer_constants_are_a_prefix(n, k);
        }
    }
    constants
}

proof fn lemma_distance_step(n: nat)
    ensures
        !is_constant_exponent(n) ==> n + 1 + distance(n + 1) == n + distance(n),
        n + 1 + distance(n + 1) <= n + distance(n) + 65535,
{
    let r = n % 65535;
    if r == 1 {
        assert(n % 3 == 1 && n % 5 == 1 && n % 17 == 1 && n % 257 == 1);
        assert((n + 1) % 65535 == 2);
    } else if r == 65534 {
        assert((n + 1) % 65535 == 0);
    } else {
        assert((n + 1) % 65535 == r + 1);
    }
}

/// 2 raised to a power.
fn gf_pow2(n: u64) -> (r: u16)
    ensures
        r == field::power(2, n as nat),
{
    proof {
        order::law_power_of_two_wraps(n as nat);
    }
    gf_pow(2, (n % 65535) as usize)
}

/// The contents of blocks, as elements.
pub open spec fn block_words(blocks: Seq<Vec<u8>>) -> Seq<Seq<u16>> {
    Seq::new(blocks.len(), |i: int| bulk::words(blocks[i]@))
}

/// Element `s` of the recovery block of exponent `e`: the sum over all data blocks of element `s`
/// times the constant of the block raised to `e`.
pub open spec fn recovery_symbol(
    constants: Seq<u16>,
    data: Seq<Seq<u16>>,
    e: nat,
    s: int,
) -> u16 {
    sums::xor_sum(|i: int| field::product(data[i][s], field::power(constants[i], e)), data.len())
}

/// The recovery block of exponent `e`, with `symbols` elements.
pub open spec fn recovery_words(
    constants: Seq<u16>,
    data: Seq<Seq<u16>>,
    e: nat,
    symbols: nat,
) -> Seq<u16> {
    Seq::new(symbols, |s: int| recovery_symbol(constants, data, e, s))
}

/// The constants of each data block raised to the exponents below `count`.
pub(crate) fn coefficient_matrix(constants: &Vec<u16>, count: usize) -> (m: Vec<Vec<u16>>)
    ensures
        is_coefficient_matrix(m@, constants@, count as nat),
{
    let mut m: Vec<Vec<u16>> = Vec::with_capacity(constants.len());
    let n: usize = constants.len();
    for i in 0..n
        invariant
            n == constants@.len(),
            m@.len() == i,
            forall|k: int| 0 <= k < i ==> (#[trigger] m@[k])@.len() == count,
            forall|k: int, e: int|
                0 <= k < i && 0 <= e < count ==> #[trigger] m@[k]@[e] == field::power(
                    constants@[k],
                    e as nat,
                ),
    {
        let base: u16 = constants[i];
        let mut coeffs: Vec<u16> = Vec::with_capacity(count);
        let mut coeff: u16 = 1;
        for e in 0..count
            invariant
                coeffs@.len() == e,
                coeff == field::power(base, e as nat),
                forall|k: int| 0 <= k < e ==> #[trigger] coeffs@[k] == field::power(base, k as nat),
        {
            coeffs.push(coeff);
            proof {
                field::law_product_commutes(coeff, base);
            }
            coeff = gf_mul(coeff, base);
        }
        m.push(coeffs);
    }
    m
}

/// Row `i` holds the powers of constant `i` with the exponents below `count`.
pub open spec fn is_coefficient_matrix(
    m: Seq<Vec<u16>>,
    constants: Seq<u16>,
    count: nat,
) -> bool {
    &&& m.len() == constants.len()
    &&& forall|i: int| 0 <= i < m.len() ==> (#[trigger] m[i])@.len() == count
    &&& forall|i: int, e: int|
        0 <= i < m.len() && 0 <= e < count ==> #[trigger] m[i]@[e] == field::power(
            constants[i],
            e as nat,
        )
}

/// The elements that bytes hold.
pub(crate) fn words_of(bytes: &Vec<u8>) -> (r: Vec<u16>)
    requires
        bytes@.len() % 2 == 0,
    ensures
        r@ == bulk::words(bytes@),
{
    let mut r: Vec<u16> = vec![0u16; bytes.len() / 2];
    bytes_to_u16_simd(bytes.as_slice(), r.as_mut_slice());
    r
}

/// The bytes of elements.
pub(crate) fn bytes_of(ws: &Vec<u16>) -> (r: Vec<u8>)
    ensures
        r@ == bulk::word_bytes(ws@),
{
    let mut r: Vec<u8> = Vec::new();
    let n: usize = ws.len();
    for i in 0..n
        invariant
            n == ws@.len(),
            r@.len() == 2 * i,
            forall|j: int| 0 <= j < 2 * i ==> r@[j] == #[trigger] bulk::word_bytes(ws@)[j],
    {
        let value: u16 = ws[i];
        proof {
            bulk::lemma_word(0, 0, value);
        }
        r.push((value & 0xff) as u8);
        r.push((value >> 8) as u8);
    }
    assert(r@ =~= bulk::word_bytes(ws@));
    r
}

/// The PAR2 Reed-Solomon code for a number of data blocks.
pub struct Par2ReedSolomon {
    pub data_blocks: usize,
    pub constants: Vec<u16>,
}

/// The message for a wrong number of data blocks.
pub open spec fn wrong_count_message(expected: nat, got: nat) -> Seq<char> {
    "Expected "@ + text::decimal_digits(expected) + " data blocks, got "@ + text::decimal_digits(
        got,
    )
}

/// The message for a data block of a wrong size.
pub open spec fn wrong_size_message(expected: nat, got: nat) -> Seq<char> {
    "Data block size mismatch: expected "@ + text::decimal_digits(expected) + ", got "@
        + text::decimal_digits(got)
}

pub(crate) fn message2(a: &str, m: usize, b: &str, n: usize) -> (r: String)
    ensures
        r@ == a@ + text::decimal_digits(m as nat) + b@ + text::decimal_digits(n as nat),
{
    let mut r: String = a.to_owned();
    r.append(text::decimal(m as u64).as_str());
    r.append(b);
    r.append(text::decimal(n as u64).as_str());
    r
}

/// Block `i` is the first whose size is not `size`.
pub open spec fn first_wrong_size(blocks: Seq<Vec<u8>>, size: nat, i: int) -> bool {
    &&& 0 <= i < blocks.len()
    &&& blocks[i]@.len() != size
    &&& forall|j: int| 0 <= j < i ==> (#[trigger] blocks[j])@.len() == size
}

/// All blocks have the size `size`.
pub open spec fn all_sized(blocks: Seq<Vec<u8>>, size: nat) -> bool {
    forall|i: int| 0 <= i < blocks.len() ==> (#[trigger] blocks[i])@.len() == size
}

/// The recovery blocks of the exponents below `count`.
pub open spec fn are_recovery_blocks(
    blocks: Seq<(u32, Vec<u8>)>,
    constants: Seq<u16>,
    data: Seq<Seq<u16>>,
    count: nat,
    symbols: nat,
) -> bool {
    &&& blocks.len() == count
    &&& forall|e: int|
        0 <= e < count ==> (#[trigger] blocks[e]).0 == e as u32 && blocks[e].1@
            == bulk::word_bytes(recovery_words(constants, data, e as nat, symbols))
}

impl Par2ReedSolomon {
    /// The constants are those of the data blocks.
    pub open spec fn wf(&self) -> bool {
        self.constants@ == par2_constants(self.data_blocks as nat)
    }

    /// Create the code for a number of data blocks.
    pub fn new(data_blocks: usize, _recovery_blocks: usize) -> (rs: Par2ReedSolomon)
        requires
            data_blocks <= u32::MAX,
        ensures
            rs.wf(),
            rs.data_blocks == data_blocks,
    {
        let constants = generate_par2_constants(data_blocks);
        Par2ReedSolomon { data_blocks, constants }
    }

    /// Generate the recovery blocks of the exponents 0, 1, ..., `num_recovery - 1`.
    pub fn encode(
        &self,
        data_blocks: &[Vec<u8>],
        num_recovery: usize,
        block_size: usize,
    ) -> (r: Result<Vec<(u32, Vec<u8>)>, String>)
        requires
            self.wf(),
        ensures
            r is Ok <==> data_blocks@.len() == self.data_blocks && block_size % 2 == 0
                && all_sized(data_blocks@, block_size as nat),
            r matches Ok(blocks) ==> are_recovery_blocks(
                blocks@,
                self.constants@,
                block_words(data_blocks@),
                num_recovery as nat,
                (block_size / 2) as nat,
            ),
            r matches Err(message) ==> if data_blocks@.len() != self.data_blocks {
                message@ == wrong_count_message(self.data_blocks as nat, data_blocks@.len())
            } else if block_size % 2 != 0 {
                message@ == "Block size must be multiple of 2"@
            } else {
                exists|i: int|
                    first_wrong_size(data_blocks@, block_size as nat, i) && message@
                        == wrong_size_message(
                        block_size as nat,
                        (#[trigger] data_blocks@[i])@.len(),
                    )
            },
    {
        if data_blocks.len() != self.data_blocks {
            return Err(
                message2("Expected ", self.data_blocks, " data blocks, got ", data_blocks.len()),
            );
        }
        if block_size % 2 != 0 {
            return Err("Block size must be multiple of 2".to_owned());
        }
        let symbols: usize = block_size / 2;
        let n: usize = data_blocks.len();
        let mut data_words: Vec<Vec<u16>> = Vec::with_capacity(n);
        for i in 0..n
            invariant
                n == data_blocks@.len(),
                n == self.data_blocks,
                block_size % 2 == 0,
                symbols == block_size / 2,
                data_words@.len() == i,
                forall|k: int| 0 <= k < i ==> (#[trigger] data_blocks@[k])@.len() == block_size,
                forall|k: int|
                    0 <= k < i ==> (#[trigger] data_words@[k])@ == bulk::words(data_blocks@[k]@),
        {
            if data_blocks[i].len() != block_size {
                assert(first_wrong_size(data_blocks@, block_size as nat, i as int));
                return Err(
                    message2(
                        "Data block size mismatch: expected ",
                        block_size,
                        ", got ",
                        data_blocks[i].len(),
                    ),
                );
            }
            data_words.push(words_of(&data_blocks[i]));
        }
        let ghost data = block_words(data_blocks@);
        assert(bulk::row_views(data_words@) =~= data);
        let coeff_matrix = coefficient_matrix(&self.constants, num_recovery);
        let mut result: Vec<(u32, Vec<u8>)> = Vec::with_capacity(num_recovery);
        for e in 0..num_recovery
            invariant
                n == data.len(),
                n == self.constants@.len(),
                n == data_words@.len(),
                data == bulk::row_views(data_words@),
                forall|k: int| 0 <= k < n ==> (#[trigger] data[k]).len() == symbols,
                is_coefficient_matrix(coeff_matrix@, self.constants@, num_recovery as nat),
                are_recovery_blocks(
                    result@,
                    self.constants@,
                    data,
                    e as nat,
                    symbols as nat,
                ),
        {
            let mut block: Vec<u16> = vec![0u16; symbols];
            for i in 0..n
                invariant
                    n == data.len(),
                    n == self.constants@.len(),
                    n == data_words@.len(),
                    data == bulk::row_views(data_words@),
                    e < num_recovery,
                    forall|k: int| 0 <= k < n ==> (#[trigger] data[k]).len() == symbols,
                    is_coefficient_matrix(coeff_matrix@, self.constants@, num_recovery as nat),
                    block@.len() == symbols,
                    forall|s: int|
                        0 <= s < symbols ==> #[trigger] block@[s] == sums::xor_sum(
                            symbol_terms(self.constants@, data, e as nat, s),
                            i as nat,
                        ),
            {
                let ghost before = block@;
                let coeff: u16 = coeff_matrix[i][e];
                gf_muladd(block.as_mut_slice(), data_words[i].as_slice(), coeff);
                proof {
                    assert(data[i as int] == data_words@[i as int]@);
                    assert(data[i as int].len() == symbols);
                    assert forall|s: int| 0 <= s < symbols implies #[trigger] block@[s]
                        == sums::xor_sum(
                        symbol_terms(self.constants@, data, e as nat, s),
                        (i + 1) as nat,
                    ) by {
                        let f = symbol_terms(self.constants@, data, e as nat, s);
                        assert(before[s] == sums::xor_sum(f, i as nat));
                        assert(f(i as int) == field::product(data[i as int][s], coeff));
                    }
                }
            }
            let bytes = bytes_of(&block);
            proof {
                assert(block@ =~= recovery_words(
                    self.constants@,
                    data,
                    e as nat,
                    symbols as nat,
                )) by {
                    assert forall|s: int| 0 <= s < symbols implies block@[s] == recovery_symbol(
                        self.constants@,
                        data,
                        e as nat,
                        s,
                    ) by {
                        sums::lemma_sum_equal(
                            symbol_terms(self.constants@, data, e as nat, s),
                            |i: int|
                                field::product(
                                    data[i][s],
                                    field::power(self.constants@[i], e as nat),
                                ),
                            n as nat,
                        );
                    }
                }
            }
            result.push((e as u32, bytes));
        }
        Ok(result)
    }
}

/// The terms of element `s` of the recovery block of exponent `e`.
pub open spec fn symbol_terms(
    constants: Seq<u16>,
    data: Seq<Seq<u16>>,
    e: nat,
    s: int,
) -> spec_fn(int) -> u16 {
    |i: int| field::product(data[i][s], field::power(constants[i], e))
}

/// What is needed to find missing blocks, whatever their contents: the row operations that solve
/// the linear system, and the coefficients of the present data blocks in it.
pub struct ReconstructionTransform {
    pub row_order: Vec<usize>,
    pub scale_factors: Vec<u16>,
    pub elimination_factors: Vec<Vec<u16>>,
    pub vandermonde_coeffs: Vec<Vec<u16>>,
}

impl ReconstructionTransform {
    /// The transform is for `m` missing blocks and `n` present ones.
    pub open spec fn fits(&self, m: nat, n: nat) -> bool {
        &&& self.row_order@.len() == m
        &&& self.scale_factors@.len() == m
        &&& self.elimination_factors@.len() == m
        &&& self.vandermonde_coeffs@.len() == m
        &&& forall|r: int| 0 <= r < m ==> (#[trigger] self.elimination_factors@[r])@.len() == m
        &&& forall|r: int| 0 <= r < m ==> (#[trigger] self.vandermonde_coeffs@[r])@.len() == n
        &&& forall|r: int| 0 <= r < m ==> #[trigger] self.scale_factors@[r] != 0
    }
}

/// The exponents of the first `m` recovery blocks that are present.
pub open spec fn used_exponents(
    data_blocks: nat,
    present_recovery: Seq<usize>,
    recovery_exponents: Seq<u32>,
    m: nat,
) -> Seq<nat> {
    Seq::new(m, |r: int| recovery_exponents[present_recovery[r] - data_blocks] as nat)
}

/// The constants of the blocks at the given indices raised to the given exponents: a row for each
/// exponent, a column for each block.
pub open spec fn vandermonde(
    constants: Seq<u16>,
    blocks: Seq<usize>,
    exponents: Seq<nat>,
) -> Seq<Seq<u16>> {
    Seq::new(
        exponents.len(),
        |r: int|
            Seq::new(
                blocks.len(),
                |c: int| field::power(constants[blocks[c] as int], exponents[r]),
            ),
    )
}

/// Every index is one of a data block.
pub open spec fn are_data_indices(v: Seq<usize>, data_blocks: nat) -> bool {
    forall|i: int| 0 <= i < v.len() ==> #[trigger] v[i] < data_blocks
}

/// The first `m` indices are those of recovery blocks whose exponent is known. The recovery
/// blocks are numbered after the data blocks.
pub open spec fn are_recovery_indices(
    v: Seq<usize>,
    data_blocks: nat,
    exponents: nat,
    m: nat,
) -> bool {
    forall|i: int|
        0 <= i < m ==> data_blocks <= #[trigger] v[i] && v[i] - data_blocks < exponents
}

/// The message for too few recovery blocks.
pub open spec fn need_message(need: nat, have: nat) -> Seq<char> {
    "Need "@ + text::decimal_digits(need) + " recovery blocks, have "@ + text::decimal_digits(have)
}

/// The constants of some blocks raised to some exponents.
fn power_matrix(
    constants: &Vec<u16>,
    blocks: &[usize],
    exponents: &Vec<u32>,
) -> (m: Vec<Vec<u16>>)
    requires
        are_data_indices(blocks@, constants@.len()),
    ensures
        bulk::row_views(m@) == vandermonde(constants@, blocks@, naturals(exponents@)),
{
    let rows: usize = exponents.len();
    let cols: usize = blocks.len();
    let mut m: Vec<Vec<u16>> = Vec::with_capacity(rows);
    let ghost want = vandermonde(constants@, blocks@, naturals(exponents@));
    for r in 0..rows
        invariant
            rows == exponents@.len(),
            cols == blocks@.len(),
            are_data_indices(blocks@, constants@.len()),
            want == vandermonde(constants@, blocks@, naturals(exponents@)),
            m@.len() == r,
            forall|k: int| 0 <= k < r ==> (#[trigger] m@[k])@ == want[k],
    {
        let exponent: usize = exponents[r] as usize;
        let mut row: Vec<u16> = Vec::with_capacity(cols);
        for c in 0..cols
            invariant
                cols == blocks@.len(),
                r < exponents@.len(),
                exponent == exponents@[r as int],
                are_data_indices(blocks@, constants@.len()),
                row@.len() == c,
                forall|k: int|
                    0 <= k < c ==> #[trigger] row@[k] == field::power(
                        constants@[blocks@[k] as int],
                        exponent as nat,
                    ),
        {
            assert(blocks@[c as int] < constants@.len());
            row.push(gf_pow(constants[blocks[c]], exponent));
        }
        assert(row@ =~= want[r as int]);
        m.push(row);
    }
    assert(bulk::row_views(m@) =~= want);
    m
}

/// Exponents as natural numbers.
pub open spec fn naturals(v: Seq<u32>) -> Seq<nat> {
    Seq::new(v.len(), |i: int| v[i] as nat)
}

impl Par2ReedSolomon {
    /// Find the row operations by which the missing blocks follow from the present ones. They
    /// depend on which blocks are missing, not on what the blocks hold.
    pub fn compute_reconstruction_transform(
        &self,
        missing_indices: &[usize],
        present_data_indices: &[usize],
        present_recovery_indices: &[usize],
        recovery_exponents: &[u32],
    ) -> (r: Result<ReconstructionTransform, String>)
        requires
            self.wf(),
            0 < missing_indices@.len() <= present_recovery_indices@.len() ==> {
                &&& are_data_indices(missing_indices@, self.data_blocks as nat)
                &&& are_data_indices(present_data_indices@, self.data_blocks as nat)
                &&& are_recovery_indices(
                    present_recovery_indices@,
                    self.data_blocks as nat,
                    recovery_exponents@.len(),
                    missing_indices@.len(),
                )
            },
        ensures
            ({
                let m = missing_indices@.len();
                let exponents = used_exponents(
                    self.data_blocks as nat,
                    present_recovery_indices@,
                    recovery_exponents@,
                    m,
                );
                let matrix = vandermonde(self.constants@, missing_indices@, exponents);
                if m == 0 {
                    r matches Err(message) && message@ == "No missing blocks to reconstruct"@
                } else if present_recovery_indices@.len() < m {
                    r matches Err(message) && message@ == need_message(
                        m,
                        present_recovery_indices@.len(),
                    )
                } else if elimination::singular(matrix, m) {
                    r matches Err(message) && message@ == "Singular matrix"@
                } else {
                    r matches Ok(t) && t.fits(m, present_data_indices@.len())
                        && elimination::solves(
                        matrix,
                        solver::indices(t.row_order@),
                        t.scale_factors@,
                        bulk::row_views(t.elimination_factors@),
                        m,
                    ) && bulk::row_views(t.vandermonde_coeffs@) == vandermonde(
                        self.constants@,
                        present_data_indices@,
                        exponents,
                    )
                }
            }),
    {
        let m: usize = missing_indices.len();
        if m == 0 {
            return Err("No missing blocks to reconstruct".to_owned());
        }
        if present_recovery_indices.len() < m {
            return Err(
                message2("Need ", m, " recovery blocks, have ", present_recovery_indices.len()),
            );
        }
        let mut exponents: Vec<u32> = Vec::with_capacity(m);
        let ghost want = used_exponents(
            self.data_blocks as nat,
            present_recovery_indices@,
            recovery_exponents@,
            m as nat,
        );
        for r in 0..m
            invariant
                m <= present_recovery_indices@.len(),
                are_recovery_indices(
                    present_recovery_indices@,
                    self.data_blocks as nat,
                    recovery_exponents@.len(),
                    m as nat,
                ),
                exponents@.len() == r,
                want == used_exponents(
                    self.data_blocks as nat,
                    present_recovery_indices@,
                    recovery_exponents@,
                    m as nat,
                ),
                forall|k: int| 0 <= k < r ==> #[trigger] exponents@[k] == want[k],
        {
            let rec_idx: usize = present_recovery_indices[r];
            assert(self.data_blocks <= present_recovery_indices@[r as int]);
            exponents.push(recovery_exponents[rec_idx - self.data_blocks]);
        }
        assert(naturals(exponents@) =~= want);
        let matrix = power_matrix(&self.constants, missing_indices, &exponents);
        proof {
            let views = bulk::row_views(matrix@);
            assert(views == vandermonde(self.constants@, missing_indices@, want));
            assert(views.len() == m);
            assert forall|i: int| 0 <= i < m implies (#[trigger] matrix@[i])@.len() == m by {
                assert(views[i] == matrix@[i]@);
            }
        }
        match solver::eliminate(matrix, m) {
            None => Err("Singular matrix".to_owned()),
            Some(ops) => {
                let vandermonde_coeffs = power_matrix(
                    &self.constants,
                    present_data_indices,
                    &exponents,
                );
                proof {
                    let views = bulk::row_views(vandermonde_coeffs@);
                    assert(views == vandermonde(self.constants@, present_data_indices@, want));
                    assert(views.len() == m);
                    assert forall|i: int| 0 <= i < m implies (#[trigger] vandermonde_coeffs@[i])@.len()
                        == present_data_indices@.len() by {
                        assert(views[i] == vandermonde_coeffs@[i]@);
                    }
                }
                Ok(
                    ReconstructionTransform {
                        row_order: ops.row_order,
                        scale_factors: ops.scale_factors,
                        elimination_factors: ops.elimination_factors,
                        vandermonde_coeffs,
                    },
                )
            },
        }
    }
}

/// What the present data blocks add to element `s` of row `r` of the system: the sum of element
/// `s` of each, times its coefficient, over the first `n` of them.
pub open spec fn known_part(
    coeffs: Seq<Seq<u16>>,
    data: Seq<Seq<u16>>,
    n: nat,
    r: int,
    s: int,
) -> u16 {
    sums::xor_sum(known_terms(coeffs, data, r, s), n)
}

/// The terms of what the present data blocks add to element `s` of row `r` of the system.
pub open spec fn known_terms(
    coeffs: Seq<Seq<u16>>,
    data: Seq<Seq<u16>>,
    r: int,
    s: int,
) -> spec_fn(int) -> u16 {
    |c: int| field::product(data[c][s], coeffs[r][c])
}

/// The right-hand side of the system for element `s`, its rows in the order `rows`: the recovery
/// block with what the present data blocks add to it taken out.
pub open spec fn right_hand_side(
    rows: Seq<int>,
    coeffs: Seq<Seq<u16>>,
    recovery: Seq<Seq<u16>>,
    data: Seq<Seq<u16>>,
    s: int,
) -> Seq<u16> {
    Seq::new(
        rows.len(),
        |r: int| recovery[rows[r]][s] ^ known_part(coeffs, data, data.len(), rows[r], s),
    )
}

/// Element `s` of the missing blocks, as the row operations give it.
pub open spec fn solution(
    t: ReconstructionTransform,
    recovery: Seq<Seq<u16>>,
    data: Seq<Seq<u16>>,
    s: int,
) -> Seq<u16> {
    elimination::steps(
        t.scale_factors@,
        bulk::row_views(t.elimination_factors@),
        t.row_order@.len(),
        right_hand_side(
            solver::indices(t.row_order@),
            bulk::row_views(t.vandermonde_coeffs@),
            recovery,
            data,
            s,
        ),
    )
}

/// The missing block in row `row`, as the row operations give it.
pub open spec fn solved_words(
    t: ReconstructionTransform,
    recovery: Seq<Seq<u16>>,
    data: Seq<Seq<u16>>,
    row: int,
    symbols: nat,
) -> Seq<u16> {
    Seq::new(symbols, |s: int| solution(t, recovery, data, s)[row])
}

/// The message for a row that the order of the rows does not name.
pub open spec fn row_message(row: nat) -> Seq<char> {
    "Row "@ + text::decimal_digits(row) + " not found in row_order"@
}

/// Row `row` is the first of the first `m` that the order does not name.
pub open spec fn first_unnamed(order: Seq<usize>, m: nat, row: int) -> bool {
    &&& 0 <= row < m
    &&& !order.contains(row as usize)
    &&& forall|i: int| 0 <= i < row ==> #[trigger] order.contains(i as usize)
}

/// The order names each of the first `m` rows.
pub open spec fn all_named(order: Seq<usize>, m: nat) -> bool {
    forall|i: int| 0 <= i < m ==> #[trigger] order.contains(i as usize)
}

/// Where a value stands first.
fn position_of(v: &Vec<usize>, x: usize) -> (r: Option<usize>)
    ensures
        r is Some <==> v@.contains(x),
        r matches Some(p) ==> p < v@.len() && v@[p as int] == x,
{
    let n: usize = v.len();
    for i in 0..n
        invariant
            n == v@.len(),
            forall|j: int| 0 <= j < i ==> #[trigger] v@[j] != x,
    {
        if v[i] == x {
            return Some(i);
        }
    }
    None
}

/// Column `s` of some rows.
pub open spec fn column(rows: Seq<Seq<u16>>, s: int) -> Seq<u16> {
    Seq::new(rows.len(), |r: int| rows[r][s])
}

/// An order that names each row names each exactly once.
proof fn lemma_named_once(order: Seq<usize>, m: nat)
    requires
        order.len() == m,
        m <= usize::MAX,
        all_named(order, m),
    ensures
        sums::is_permutation(solver::indices(order), m),
{
    let v = solver::indices(order);
    let s = v.to_set();
    let all = vstd::set_lib::set_int_range(0, m as int);
    vstd::set_lib::lemma_int_range(0, m as int);
    v.lemma_cardinality_of_set();
    assert(all.subset_of(s)) by {
        assert forall|x: int| all.contains(x) implies s.contains(x) by {
            assert(order.contains(x as usize));
            let k = choose|k: int| 0 <= k < order.len() && order[k] == x as usize;
            assert(v[k] == x);
        }
    }
    vstd::set_lib::lemma_len_subset(all, s);
    v.lemma_no_dup_set_cardinality();
    vstd::set_lib::lemma_subset_equality(all, s);
    assert forall|i: int| 0 <= i < m implies 0 <= #[trigger] v[i] < m by {
        assert(v.contains(v[i]));
        assert(s.contains(v[i]));
        assert(all.contains(v[i]));
    }
}

/// Divide every element of a row by a scale factor.
fn divide_row(row: &mut Vec<u16>, scale: u16)
    requires
        scale != 0,
    ensures
        final(row)@ == Seq::new(
            old(row)@.len(),
            |s: int| order::quotient(old(row)@[s], scale),
        ),
{
    let inverse: u16 = match gf_div(1, scale) {
        Some(q) => q,
        None => 1,
    };
    proof {
        field::law_product_one(order::inverse(scale));
    }
    gf_mul_slice(inverse, row.as_mut_slice());
    assert(row@ =~= Seq::new(old(row)@.len(), |s: int| order::quotient(old(row)@[s], scale)));
}

/// Apply the row operations to rows of elements.
fn apply_operations(rows: &mut Vec<Vec<u16>>, t: &ReconstructionTransform, symbols: usize, n: usize)
    requires
        t.fits(old(rows)@.len(), n as nat),
        forall|r: int| 0 <= r < old(rows)@.len() ==> (#[trigger] old(rows)@[r])@.len() == symbols,
    ensures
        final(rows)@.len() == old(rows)@.len(),
        forall|r: int|
            0 <= r < old(rows)@.len() ==> (#[trigger] final(rows)@[r])@.len() == symbols,
        forall|s: int|
            0 <= s < symbols ==> #[trigger] column(bulk::row_views(final(rows)@), s)
                == elimination::steps(
                t.scale_factors@,
                bulk::row_views(t.elimination_factors@),
                old(rows)@.len(),
                column(bulk::row_views(old(rows)@), s),
            ),
{
    let m: usize = rows.len();
    let ghost start = bulk::row_views(rows@);
    let ghost elim = bulk::row_views(t.elimination_factors@);
    for k in 0..m
        invariant
            rows@.len() == m,
            t.fits(m as nat, n as nat),
            elim == bulk::row_views(t.elimination_factors@),
            forall|r: int| 0 <= r < m ==> (#[trigger] rows@[r])@.len() == symbols,
            start == bulk::row_views(old(rows)@),
            m == old(rows)@.len(),
            forall|s: int|
                0 <= s < symbols ==> #[trigger] column(bulk::row_views(rows@), s)
                    == elimination::steps(t.scale_factors@, elim, k as nat, column(start, s)),
    {
        let ghost before = bulk::row_views(rows@);
        let scale: u16 = t.scale_factors[k];
        assert(t.scale_factors@[k as int] != 0);
        assert(rows@[k as int]@.len() == symbols);
        divide_row(&mut rows[k], scale);
        let pivot_row: Vec<u16> = rows[k].clone();
        proof {
            assert forall|i: int| 0 <= i < m implies (#[trigger] rows@[i])@.len() == symbols by {
                assert(before[i].len() == symbols);
            }
        }
        for r in 0..m
            invariant
                k < m,
                rows@.len() == m,
                t.fits(m as nat, n as nat),
                elim == bulk::row_views(t.elimination_factors@),
                forall|i: int| 0 <= i < m ==> (#[trigger] rows@[i])@.len() == symbols,
                before.len() == m,
                forall|i: int| 0 <= i < m ==> (#[trigger] before[i]).len() == symbols,
                pivot_row@ == Seq::new(
                    symbols as nat,
                    |s: int|
                        order::quotient(before[k as int][s], t.scale_factors@[k as int]),
                ),
                rows@[k as int]@ == pivot_row@,
                forall|i: int|
                    0 <= i < r && i != k ==> (#[trigger] rows@[i])@ == bulk::add_scaled(
                        before[i],
                        pivot_row@,
                        elim[i][k as int],
                    ),
                forall|i: int| r <= i < m && i != k ==> (#[trigger] rows@[i])@ == before[i],
        {
            if r != k {
                assert(t.elimination_factors@[r as int]@.len() == m);
                let factor: u16 = t.elimination_factors[r][k];
                assert(elim[r as int][k as int] == factor);
                gf_muladd(rows[r].as_mut_slice(), pivot_row.as_slice(), factor);
            }
        }
        proof {
            assert forall|s: int| 0 <= s < symbols implies #[trigger] column(
                bulk::row_views(rows@),
                s,
            ) == elimination::steps(
                t.scale_factors@,
                elim,
                (k + 1) as nat,
                column(start, s),
            ) by {
                let c = column(before, s);
                assert(c == elimination::steps(
                    t.scale_factors@,
                    elim,
                    k as nat,
                    column(start, s),
                ));
                let want = elimination::step(t.scale_factors@, elim, k as int, c);
                let got = column(bulk::row_views(rows@), s);
                assert forall|r: int| 0 <= r < m implies got[r] == want[r] by {
                    assert(rows@[r]@.len() == symbols);
                    assert(before[r].len() == symbols);
                }
                assert(got =~= want);
            }
        }
    }
}

/// Every chunk has the size `size`.
pub open spec fn chunks_sized(chunks: Seq<Vec<u8>>, size: nat) -> bool {
    forall|i: int| 0 <= i < chunks.len() ==> (#[trigger] chunks[i])@.len() == size
}

/// Number of sources that are taken together.
pub const SRC_BATCH: usize = 8;

/// Add to each row what the present data blocks add to it, a batch of blocks at a time.
fn add_known_blocks(
    rows: &mut Vec<Vec<u16>>,
    t: &ReconstructionTransform,
    data_chunks: &[Vec<u8>],
    chunk_size: usize,
)
    requires
        t.fits(old(rows)@.len(), data_chunks@.len()),
        chunk_size % 2 == 0,
        chunks_sized(data_chunks@, chunk_size as nat),
        forall|r: int|
            0 <= r < old(rows)@.len() ==> (#[trigger] old(rows)@[r])@.len() == chunk_size / 2,
        forall|r: int| 0 <= r < old(rows)@.len() ==> #[trigger] t.row_order@[r] < old(rows)@.len(),
    ensures
        final(rows)@.len() == old(rows)@.len(),
        forall|r: int|
            0 <= r < old(rows)@.len() ==> (#[trigger] final(rows)@[r])@ == Seq::new(
                (chunk_size / 2) as nat,
                |s: int|
                    old(rows)@[r]@[s] ^ known_part(
                        bulk::row_views(t.vandermonde_coeffs@),
                        block_words(data_chunks@),
                        data_chunks@.len(),
                        t.row_order@[r] as int,
                        s,
                    ),
            ),
{
    let m: usize = rows.len();
    let n: usize = data_chunks.len();
    let symbols: usize = chunk_size / 2;
    let ghost coeffs = bulk::row_views(t.vandermonde_coeffs@);
    let ghost data = block_words(data_chunks@);
    let ghost start = rows@;
    let mut done: usize = 0;
    proof {
        assert forall|r: int, s: int|
            0 <= r < m && 0 <= s < symbols implies #[trigger] rows@[r]@[s] == start[r]@[s]
            ^ known_part(coeffs, data, 0, t.row_order@[r] as int, s) by {
            field::law_xor(start[r]@[s], 0, 0);
        }
    }
    while done < n
        invariant
            done <= n,
            n == data_chunks@.len(),
            m == rows@.len(),
            m == start.len(),
            start == old(rows)@,
            symbols == chunk_size / 2,
            chunk_size % 2 == 0,
            t.fits(m as nat, n as nat),
            chunks_sized(data_chunks@, chunk_size as nat),
            coeffs == bulk::row_views(t.vandermonde_coeffs@),
            data == block_words(data_chunks@),
            forall|r: int| 0 <= r < m ==> (#[trigger] rows@[r])@.len() == symbols,
            forall|r: int| 0 <= r < m ==> #[trigger] t.row_order@[r] < m,
            forall|r: int, s: int|
                0 <= r < m && 0 <= s < symbols ==> #[trigger] rows@[r]@[s] == start[r]@[s]
                    ^ known_part(coeffs, data, done as nat, t.row_order@[r] as int, s),
        decreases n - done,
    {
        let batch: usize = if n - done <= SRC_BATCH {
            n - done
        } else {
            SRC_BATCH
        };
        let mut buffers: Vec<Vec<u16>> = Vec::with_capacity(batch);
        for i in 0..batch
            invariant
                done + batch <= n,
                n == data_chunks@.len(),
                chunk_size % 2 == 0,
                chunks_sized(data_chunks@, chunk_size as nat),
                buffers@.len() == i,
                forall|k: int|
                    0 <= k < i ==> (#[trigger] buffers@[k])@ == bulk::words(
                        data_chunks@[done + k]@,
                    ),
        {
            assert(data_chunks@[done + i]@.len() == chunk_size);
            buffers.push(words_of(&data_chunks[done + i]));
        }
        let mut sources: Vec<&[u16]> = Vec::with_capacity(batch);
        for i in 0..batch
            invariant
                buffers@.len() == batch,
                sources@.len() == i,
                forall|k: int| 0 <= k < i ==> (#[trigger] sources@[k])@ == buffers@[k]@,
        {
            sources.push(buffers[i].as_slice());
        }
        let mut coeff_rows: Vec<Vec<u16>> = Vec::with_capacity(m);
        for r in 0..m
            invariant
                done + batch <= n,
                t.fits(m as nat, n as nat),
                coeffs == bulk::row_views(t.vandermonde_coeffs@),
                forall|k: int| 0 <= k < m ==> #[trigger] t.row_order@[k] < m,
                coeff_rows@.len() == r,
                forall|k: int|
                    0 <= k < r ==> (#[trigger] coeff_rows@[k])@ == Seq::new(
                        batch as nat,
                        |c: int| coeffs[t.row_order@[k] as int][done + c],
                    ),
        {
            assert(t.row_order@[r as int] < m);
            let from: usize = t.row_order[r];
            assert(t.vandermonde_coeffs@[from as int]@.len() == n);
            let mut row_coeffs: Vec<u16> = Vec::with_capacity(batch);
            for c in 0..batch
                invariant
                    done + batch <= n,
                    from < m,
                    t.vandermonde_coeffs@.len() == m,
                    t.vandermonde_coeffs@[from as int]@.len() == n,
                    row_coeffs@.len() == c,
                    forall|k: int|
                        0 <= k < c ==> #[trigger] row_coeffs@[k]
                            == t.vandermonde_coeffs@[from as int]@[done + k],
            {
                row_coeffs.push(t.vandermonde_coeffs[from][done + c]);
            }
            assert(coeffs[from as int] == t.vandermonde_coeffs@[from as int]@);
            assert(row_coeffs@ =~= Seq::new(
                batch as nat,
                |c: int| coeffs[t.row_order@[r as int] as int][done + c],
            ));
            coeff_rows.push(row_coeffs);
        }
        let mut coeff_refs: Vec<&[u16]> = Vec::with_capacity(m);
        for r in 0..m
            invariant
                coeff_rows@.len() == m,
                coeff_refs@.len() == r,
                forall|k: int| 0 <= k < r ==> (#[trigger] coeff_refs@[k])@ == coeff_rows@[k]@,
        {
            coeff_refs.push(coeff_rows[r].as_slice());
        }
        let ghost views = bulk::slice_views(sources@);
        let ghost before = rows@;
        proof {
            assert forall|i: int| 0 <= i < views.len() implies symbols <= (#[trigger] views[i]).len() by {
                assert(sources@[i]@ == buffers@[i]@);
                assert(data_chunks@[done + i]@.len() == chunk_size);
            }
            let crefs = bulk::slice_views(coeff_refs@);
            assert forall|d: int| 0 <= d < m implies views.len() <= (#[trigger] crefs[d]).len() by {
                assert(coeff_refs@[d]@ == coeff_rows@[d]@);
            }
            let rv = bulk::row_views(rows@);
            assert forall|d: int| 0 <= d < m implies symbols <= (#[trigger] rv[d]).len() by {
                assert(rows@[d]@.len() == symbols);
            }
            assert(kernel::region_covered(rv, views, crefs, 0, symbols as int));
        }
        gf_muladd_block_regions(
            rows.as_mut_slice(),
            sources.as_slice(),
            coeff_refs.as_slice(),
            symbols,
        );
        proof {
            assert forall|r: int| 0 <= r < m implies (#[trigger] rows@[r])@.len() == symbols by {
                assert(before[r]@.len() == symbols);
            }
            assert forall|r: int, s: int|
                0 <= r < m && 0 <= s < symbols implies #[trigger] rows@[r]@[s] == start[r]@[s]
                ^ known_part(
                coeffs,
                data,
                (done + batch) as nat,
                t.row_order@[r] as int,
                s,
            ) by {
                let row = t.row_order@[r] as int;
                let f = known_terms(coeffs, data, row, s);
                let g = |i: int| f(done + i);
                let h = |i: int| bulk::term(views, coeff_refs@[r]@, i, s);
                assert forall|i: int| 0 <= i < batch implies #[trigger] h(i) == g(i) by {
                    assert(sources@[i]@ == buffers@[i]@);
                    assert(data_chunks@[done + i]@.len() == chunk_size);
                    assert(coeff_refs@[r]@ == coeff_rows@[r]@);
                    assert(views[i] == bulk::words(data_chunks@[done + i]@));
                    assert(data[done + i] == views[i]);
                }
                assert(coeff_refs@[r]@ == coeff_rows@[r]@);
                sums::lemma_sum_equal(h, g, batch as nat);
                sums::lemma_sum_split(f, done as nat, batch as nat);
                assert(before[r]@.len() == symbols);
                assert(rows@[r]@[s] == before[r]@[s] ^ bulk::weighted_sum(
                    views,
                    coeff_refs@[r]@,
                    batch as nat,
                    s,
                ));
                assert(before[r]@[s] == start[r]@[s] ^ sums::xor_sum(f, done as nat));
                field::law_xor(
                    start[r]@[s],
                    sums::xor_sum(f, done as nat),
                    sums::xor_sum(g, batch as nat),
                );
            }
        }
        done = done + batch;
    }
    proof {
        assert forall|r: int| 0 <= r < m implies (#[trigger] rows@[r])@ == Seq::new(
            symbols as nat,
            |s: int|
                start[r]@[s] ^ known_part(
                    coeffs,
                    data,
                    n as nat,
                    t.row_order@[r] as int,
                    s,
                ),
        ) by {
            assert(rows@[r]@ =~= Seq::new(
                symbols as nat,
                |s: int|
                    start[r]@[s] ^ known_part(
                        coeffs,
                        data,
                        n as nat,
                        t.row_order@[r] as int,
                        s,
                    ),
            ));
        }
    }
}

impl Par2ReedSolomon {
    /// Find a chunk of each missing block from the same chunk of the present blocks.
    ///
    /// `recovery_chunks` holds the chunks of the recovery blocks at `present_recovery_indices`,
    /// `data_chunks` those of the data blocks at `present_data_indices`. The result holds the
    /// index of each missing block and its chunk.
    pub fn reconstruct_streaming_chunk(
        &self,
        missing_indices: &[usize],
        present_data_indices: &[usize],
        present_recovery_indices: &[usize],
        transform: &ReconstructionTransform,
        chunk_size: usize,
        recovery_chunks: &[Vec<u8>],
        data_chunks: &[Vec<u8>],
    ) -> (r: Result<Vec<(usize, Vec<u8>)>, String>)
        requires
            0 < missing_indices@.len() <= present_recovery_indices@.len() ==> {
                &&& transform.fits(missing_indices@.len(), present_data_indices@.len())
                &&& chunk_size % 2 == 0
                &&& recovery_chunks@.len() == present_recovery_indices@.len()
                &&& data_chunks@.len() == present_data_indices@.len()
                &&& chunks_sized(recovery_chunks@, chunk_size as nat)
                &&& chunks_sized(data_chunks@, chunk_size as nat)
            },
        ensures
            ({
                let m = missing_indices@.len();
                if m == 0 {
                    r matches Ok(blocks) && blocks@.len() == 0
                } else if present_recovery_indices@.len() < m {
                    r matches Err(message) && message@ == need_message(
                        m,
                        present_recovery_indices@.len(),
                    )
                } else if !all_named(transform.row_order@, m) {
                    r matches Err(message) && exists|row: int|
                        #[trigger] first_unnamed(transform.row_order@, m, row) && message@
                            == row_message(row as nat)
                } else {
                    r matches Ok(blocks) && blocks@.len() == m && forall|i: int|
                        0 <= i < m ==> (#[trigger] blocks@[i]).0 == missing_indices@[i]
                            && blocks@[i].1@ == bulk::word_bytes(
                            solved_words(
                                *transform,
                                block_words(recovery_chunks@),
                                block_words(data_chunks@),
                                i,
                                (chunk_size / 2) as nat,
                            ),
                        )
                }
            }),
    {
        let m: usize = missing_indices.len();
        if m == 0 {
            return Ok(Vec::new());
        }
        if present_recovery_indices.len() < m {
            return Err(
                message2("Need ", m, " recovery blocks, have ", present_recovery_indices.len()),
            );
        }
        let symbols: usize = chunk_size / 2;
        let ghost order = transform.row_order@;
        let ghost recovery = block_words(recovery_chunks@);
        let mut rows: Vec<Vec<u16>> = Vec::with_capacity(m);
        for i in 0..m
            invariant
                rows@.len() == i,
                forall|k: int| 0 <= k < i ==> (#[trigger] rows@[k])@.len() == symbols,
        {
            let zero_row: Vec<u16> = vec![0u16; symbols];
            rows.push(zero_row);
        }
        for row in 0..m
            invariant
                m == missing_indices@.len(),
                0 < m <= present_recovery_indices@.len(),
                symbols == chunk_size / 2,
                chunk_size % 2 == 0,
                order == transform.row_order@,
                recovery == block_words(recovery_chunks@),
                transform.fits(m as nat, present_data_indices@.len()),
                recovery_chunks@.len() == present_recovery_indices@.len(),
                chunks_sized(recovery_chunks@, chunk_size as nat),
                rows@.len() == m,
                forall|k: int| 0 <= k < m ==> (#[trigger] rows@[k])@.len() == symbols,
                forall|k: int| 0 <= k < row ==> #[trigger] order.contains(k as usize),
                forall|p: int|
                    0 <= p < m && order[p] < row ==> (exists|q: int|
                        0 <= q < m && order[q] == order[p] && (#[trigger] rows@[q])@
                            == recovery[order[p] as int]),
        {
            match position_of(&transform.row_order, row) {
                Some(p) => {
                    let ghost before = rows@;
                    assert(recovery_chunks@[row as int]@.len() == chunk_size);
                    rows.set(p, words_of(&recovery_chunks[row]));
                    proof {
                        assert(rows@[p as int]@ == recovery[row as int]);
                        assert forall|i: int|
                            0 <= i < m && order[i] < row + 1 implies (exists|q: int|
                            0 <= q < m && order[q] == order[i] && (#[trigger] rows@[q])@
                                == recovery[order[i] as int]) by {
                            if order[i] < row {
                                let q = choose|q: int|
                                    0 <= q < m && order[q] == order[i] && (#[trigger] before[q])@
                                        == recovery[order[i] as int];
                                assert(rows@[q]@ == recovery[order[i] as int]);
                            } else {
                                assert(order[p as int] == order[i]);
                                assert(rows@[p as int]@ == recovery[order[i] as int]);
                            }
                        }
                    }
                },
                None => {
                    let mut message: String = "Row ".to_owned();
                    message.append(text::decimal(row as u64).as_str());
                    message.append(" not found in row_order");
                    proof {
                        assert(!order.contains(row as usize));
                        assert(first_unnamed(order, m as nat, row as int));
                    }
                    return Err(message);
                },
            }
        }
        proof {
            lemma_named_once(order, m as nat);
            let v = solver::indices(order);
            assert forall|i: int| 0 <= i < m implies #[trigger] order[i] < m by {
                assert(0 <= v[i] < m);
            }
            assert forall|i: int| 0 <= i < m implies (#[trigger] rows@[i])@
                == recovery[order[i] as int] by {
                assert(order[i] < m);
                let q = choose|q: int|
                    0 <= q < m && order[q] == order[i] && (#[trigger] rows@[q])@
                        == recovery[order[i] as int];
                if q < i {
                    assert(v[q] != v[i]);
                } else if i < q {
                    assert(v[i] != v[q]);
                }
            }
        }
        let ghost placed = rows@;
        let ghost data = block_words(data_chunks@);
        let ghost coeffs = bulk::row_views(transform.vandermonde_coeffs@);
        add_known_blocks(&mut rows, transform, data_chunks, chunk_size);
        proof {
            assert forall|r: int| 0 <= r < m implies (#[trigger] rows@[r])@.len() == symbols by {}
        }
        let ghost filled = bulk::row_views(rows@);
        apply_operations(&mut rows, transform, symbols, data_chunks.len());
        proof {
            let v = solver::indices(order);
            assert forall|s: int| 0 <= s < symbols implies #[trigger] column(
                bulk::row_views(rows@),
                s,
            ) == solution(*transform, recovery, data, s) by {
                let rhs = right_hand_side(v, coeffs, recovery, data, s);
                let c = column(filled, s);
                assert forall|r: int| 0 <= r < m implies c[r] == rhs[r] by {
                    assert(placed[r]@ == recovery[order[r] as int]);
                }
                assert(c =~= rhs);
            }
        }
        let mut blocks: Vec<(usize, Vec<u8>)> = Vec::with_capacity(m);
        for i in 0..m
            invariant
                m == missing_indices@.len(),
                rows@.len() == m,
                symbols == chunk_size / 2,
                blocks@.len() == i,
                forall|r: int| 0 <= r < m ==> (#[trigger] rows@[r])@.len() == symbols,
                forall|s: int|
                    0 <= s < symbols ==> #[trigger] column(bulk::row_views(rows@), s) == solution(
                        *transform,
                        recovery,
                        data,
                        s,
                    ),
                forall|k: int|
                    0 <= k < i ==> (#[trigger] blocks@[k]).0 == missing_indices@[k]
                        && blocks@[k].1@ == bulk::word_bytes(
                        solved_words(*transform, recovery, data, k, symbols as nat),
                    ),
        {
            proof {
                let want = solved_words(*transform, recovery, data, i as int, symbols as nat);
                assert forall|s: int| 0 <= s < symbols implies rows@[i as int]@[s] == want[s] by {
                    let c = column(bulk::row_views(rows@), s);
                    assert(c[i as int] == rows@[i as int]@[s]);
                }
                assert(rows@[i as int]@ =~= want);
            }
            blocks.push((missing_indices[i], bytes_of(&rows[i])));
        }
        Ok(blocks)
    }
}

} // verus!
