//! The constants of data blocks differ: there are 32768 numbers below 65535 that give one.

use vstd::prelude::*;

use crate::elimination;
use crate::galois::field;
use crate::galois::order;
use crate::reconstruction;
use crate::reed_solomon;
use crate::restoration;

verus! {

/// The greatest number of data blocks whose constants all differ.
pub const DISTINCT_CONSTANTS: usize = 32768;

/// How many of the numbers from 1 to `n` give a constant.
pub open spec fn counted_to(n: nat) -> int
    decreases n,
{
    if n == 0 {
        0
    } else if reed_solomon::is_constant_exponent(n) {
        counted_to((n - 1) as nat) + 1
    } else {
        counted_to((n - 1) as nat)
    }
}

/// How many of the numbers from 1 to `n` are multiples of none of 3, 5, 17 and 257, by inclusion and
/// exclusion.
spec fn sieved(n: int) -> int {
    n - n / 3 - n / 5 - n / 17 - n / 257 + n / 15 + n / 51 + n / 771 + n / 85 + n / 1285 + n / 4369
        - n / 255 - n / 3855 - n / 13107 - n / 21845 + n / 65535
}

/// 1 if `n` is a multiple of `d`.
spec fn hit(n: int, d: int) -> int {
    if n % d == 0 {
        1
    } else {
        0
    }
}

proof fn lemma_hit(n: int, d: int)
    requires
        n >= 1,
        d >= 2,
    ensures
        n / d - (n - 1) / d == hit(n, d),
{
    let q = n / d;
    let r = n % d;
    assert(n == d * q + r && 0 <= r < d) by (nonlinear_arith)
        requires
            d >= 2,
            q == n / d,
            r == n % d,
    ;
    let p = (n - 1) / d;
    let s = (n - 1) % d;
    assert(n - 1 == d * p + s && 0 <= s < d) by (nonlinear_arith)
        requires
            d >= 2,
            p == (n - 1) / d,
            s == (n - 1) % d,
    ;
    if r == 0 {
        assert(p == q - 1) by (nonlinear_arith)
            requires
                d >= 2,
                n == d * q,
                n - 1 == d * p + s,
                0 <= s < d,
        ;
    } else {
        assert(p == q) by (nonlinear_arith)
            requires
                d >= 2,
                n == d * q + r,
                0 < r < d,
                n - 1 == d * p + s,
                0 <= s < d,
        ;
    }
}

/// A number is a multiple of the product of two numbers prime to each other just if it is one of
/// both.
proof fn lemma_both(n: int, a: int, b: int, u: int, v: int)
    requires
        a >= 2,
        b >= 2,
        u * a + v * b == 1,
    ensures
        n % (a * b) == 0 <==> n % a == 0 && n % b == 0,
{
    let q = n / (a * b);
    let r = n % (a * b);
    assert(a * b >= 4) by (nonlinear_arith)
        requires
            a >= 2,
            b >= 2,
    ;
    assert(n == (a * b) * q + r && 0 <= r < a * b) by (nonlinear_arith)
        requires
            a * b >= 4,
            q == n / (a * b),
            r == n % (a * b),
    ;
    if r == 0 {
        vstd::arithmetic::div_mod::lemma_mod_multiples_basic(b * q, a);
        vstd::arithmetic::div_mod::lemma_mod_multiples_basic(a * q, b);
        assert(n == (b * q) * a) by (nonlinear_arith)
            requires
                n == (a * b) * q,
        ;
        assert(n == (a * q) * b) by (nonlinear_arith)
            requires
                n == (a * b) * q,
        ;
    }
    if n % a == 0 && n % b == 0 {
        let x = n / a;
        let y = n / b;
        assert(n == a * x) by (nonlinear_arith)
            requires
                a >= 2,
                n % a == 0,
                x == n / a,
        ;
        assert(n == b * y) by (nonlinear_arith)
            requires
                b >= 2,
                n % b == 0,
                y == n / b,
        ;
        let k = u * y + v * x;
        assert(n == (a * b) * k) by (nonlinear_arith)
            requires
                u * a + v * b == 1,
                n == a * x,
                n == b * y,
                k == u * y + v * x,
        ;
        vstd::arithmetic::div_mod::lemma_mod_multiples_basic(k, a * b);
        assert((a * b) * k == k * (a * b)) by (nonlinear_arith);
    }
}

proof fn lemma_sieve_step(n: int)
    requires
        n >= 1,
    ensures
        sieved(n) - sieved(n - 1) == (if reed_solomon::is_constant_exponent(n as nat) {
            1int
        } else {
            0
        }),
{
    lemma_hit(n, 3);
    lemma_hit(n, 5);
    lemma_hit(n, 17);
    lemma_hit(n, 257);
    lemma_hit(n, 15);
    lemma_hit(n, 51);
    lemma_hit(n, 771);
    lemma_hit(n, 85);
    lemma_hit(n, 1285);
    lemma_hit(n, 4369);
    lemma_hit(n, 255);
    lemma_hit(n, 3855);
    lemma_hit(n, 13107);
    lemma_hit(n, 21845);
    lemma_hit(n, 65535);
    lemma_both(n, 3, 5, 2, -1);
    lemma_both(n, 3, 17, 6, -1);
    lemma_both(n, 3, 257, 86, -1);
    lemma_both(n, 5, 17, 7, -2);
    lemma_both(n, 5, 257, 103, -2);
    lemma_both(n, 17, 257, 121, -8);
    lemma_both(n, 15, 17, 8, -7);
    lemma_both(n, 15, 257, 120, -7);
    lemma_both(n, 51, 257, 126, -25);
    lemma_both(n, 85, 257, 127, -42);
    lemma_both(n, 255, 257, 128, -127);
}

proof fn lemma_counted(n: nat)
    ensures
        counted_to(n) == sieved(n as int),
    decreases n,
{
    if n > 0 {
        lemma_counted((n - 1) as nat);
        lemma_sieve_step(n as int);
    }
}

proof fn lemma_counted_monotone(n: nat, m: nat)
    requires
        n <= m,
    ensures
        counted_to(n) <= counted_to(m),
    decreases m,
{
    if n < m {
        lemma_counted_monotone(n, (m - 1) as nat);
    }
}

proof fn lemma_exponent_number(n: nat, count: nat, i: int)
    requires
        n >= 1,
        0 <= i < count,
    ensures
        reed_solomon::exponents_from(n, count).len() == count,
        counted_to(reed_solomon::exponents_from(n, count)[i]) == counted_to((n - 1) as nat) + i + 1,
    decreases count, reed_solomon::distance(n),
{
    reed_solomon::lemma_exponents(n, count);
    reed_solomon::lemma_distance(n);
    if reed_solomon::is_constant_exponent(n) {
        let rest = reed_solomon::exponents_from(n + 1, (count - 1) as nat);
        assert(reed_solomon::exponents_from(n, count) == seq![n] + rest);
        if i > 0 {
            lemma_exponent_number(n + 1, (count - 1) as nat, i - 1);
        }
    } else {
        lemma_exponent_number(n + 1, count, i);
    }
}

/// Half of the numbers up to 65536 give a constant: 32768 below 65535.
pub proof fn law_constant_count()
    ensures
        counted_to(65535) == DISTINCT_CONSTANTS,
{
    lemma_counted(65535);
}

proof fn lemma_exponents_bounded(count: nat, i: int)
    requires
        0 <= i < count <= DISTINCT_CONSTANTS,
    ensures
        reed_solomon::exponents_from(1, count)[i] < 65535,
{
    let e = reed_solomon::exponents_from(1, count)[i];
    reed_solomon::lemma_exponents(1, count);
    lemma_exponent_number(1, count, i);
    law_constant_count();
    assert(reed_solomon::is_constant_exponent(e));
    if e > 65535 {
        lemma_counted_monotone(65535, (e - 1) as nat);
    }
}

/// Up to 32768 data blocks have different constants.
pub proof fn law_constants_differ(count: nat, i: int, j: int)
    requires
        0 <= i < j < count <= DISTINCT_CONSTANTS,
    ensures
        reed_solomon::par2_constants(count)[i] != reed_solomon::par2_constants(count)[j],
{
    reed_solomon::lemma_exponents(1, count);
    lemma_exponents_bounded(count, j);
    let e = reed_solomon::exponents_from(1, count);
    order::law_powers_of_two_distinct(e[i], e[j]);
}

/// Of up to 32768 data blocks, any that are missing can be restored from as many recovery blocks with
/// consecutive exponents.
pub proof fn law_missing_blocks_can_be_restored(count: nat, missing: Seq<usize>, first: nat)
    requires
        count <= DISTINCT_CONSTANTS,
        reed_solomon::are_data_indices(missing, count),
        restoration::distinct(missing),
    ensures
        !elimination::singular(
            reed_solomon::vandermonde(
                reed_solomon::par2_constants(count),
                missing,
                Seq::new(missing.len(), |r: int| (first + r) as nat),
            ),
            missing.len(),
        ),
{
    let constants = reed_solomon::par2_constants(count);
    assert forall|k: int| 0 <= k < missing.len() implies constants[(
    #[trigger] missing[k]) as int] != 0 by {
        reed_solomon::lemma_constants_nonzero(count, missing[k] as int);
    }
    assert forall|i: int, j: int| 0 <= i < j < missing.len() implies constants[(
    #[trigger] missing[i]) as int] != constants[(#[trigger] missing[j]) as int] by {
        if missing[i] < missing[j] {
            law_constants_differ(count, missing[i] as int, missing[j] as int);
        } else {
            law_constants_differ(count, missing[j] as int, missing[i] as int);
        }
    }
    reconstruction::law_consecutive_exponents_suffice(constants, missing, first);
}

proof fn lemma_exponents_are_prefix(n: nat, count: nat, k: nat)
    requires
        k <= count,
    ensures
        reed_solomon::exponents_from(n, k) == reed_solomon::exponents_from(n, count).take(k as int),
    decreases count, reed_solomon::distance(n),
{
    reed_solomon::lemma_exponents(n, count);
    reed_solomon::lemma_distance(n);
    let all = reed_solomon::exponents_from(n, count);
    if k == 0 {
        assert(all.take(0) =~= seq![]);
    } else if reed_solomon::is_constant_exponent(n) {
        lemma_exponents_are_prefix(n + 1, (count - 1) as nat, (k - 1) as nat);
        let rest = reed_solomon::exponents_from(n + 1, (count - 1) as nat);
        assert(all == seq![n] + rest);
        assert(all.take(k as int) =~= seq![n] + rest.take(k - 1));
    } else {
        lemma_exponents_are_prefix(n + 1, count, k);
    }
}

proof fn lemma_none_skipped(n: nat, count: nat, m: nat)
    requires
        count > 0,
        n <= m <= reed_solomon::exponents_from(n, count).last(),
        reed_solomon::is_constant_exponent(m),
    ensures
        reed_solomon::exponents_from(n, count).contains(m),
    decreases count, reed_solomon::distance(n),
{
    reed_solomon::lemma_exponents(n, count);
    reed_solomon::lemma_distance(n);
    let all = reed_solomon::exponents_from(n, count);
    if reed_solomon::is_constant_exponent(n) {
        let rest = reed_solomon::exponents_from(n + 1, (count - 1) as nat);
        assert(all == seq![n] + rest);
        if m == n {
            assert(all[0] == m);
        } else {
            reed_solomon::lemma_exponents(n + 1, (count - 1) as nat);
            assert(count > 1);
            assert(all.last() == rest.last());
            lemma_none_skipped(n + 1, (count - 1) as nat, m);
            let k = choose|k: int| 0 <= k < rest.len() && rest[k] == m;
            assert(all[k + 1] == m);
        }
    } else {
        lemma_none_skipped(n + 1, count, m);
    }
}

/// The exponents of the constants are exactly the positive numbers, up to the last of them, that none
/// of 3, 5, 17 and 257 divides, in ascending order. No constant is 0.
pub proof fn law_exponents_of_constants(count: nat)
    ensures
        ({
            let e = reed_solomon::exponents_from(1, count);
            let constants = reed_solomon::par2_constants(count);
            &&& e.len() == count
            &&& constants.len() == count
            &&& forall|i: int|
                0 <= i < count ==> 1 <= #[trigger] e[i] && reed_solomon::is_constant_exponent(e[i])
                    && constants[i] == field::power(2, e[i]) && constants[i] != 0
            &&& forall|i: int, j: int| 0 <= i < j < count ==> #[trigger] e[i] < #[trigger] e[j]
            &&& forall|m: nat|
                count > 0 && 1 <= m <= e.last() && #[trigger] reed_solomon::is_constant_exponent(m)
                    ==> e.contains(m)
        }),
{
    reed_solomon::lemma_exponents(1, count);
    let e = reed_solomon::exponents_from(1, count);
    let constants = reed_solomon::par2_constants(count);
    assert forall|i: int| 0 <= i < count implies 1 <= #[trigger] e[i]
        && reed_solomon::is_constant_exponent(e[i]) && constants[i] == field::power(2, e[i])
        && constants[i] != 0 by {
        reed_solomon::lemma_constants_nonzero(count, i);
    }
    assert forall|m: nat|
        count > 0 && 1 <= m <= e.last()
            && #[trigger] reed_solomon::is_constant_exponent(m) implies e.contains(m) by {
        lemma_none_skipped(1, count, m);
    }
}

/// Fewer constants are the first of more.
pub proof fn law_fewer_constants_are_a_prefix(count: nat, k: nat)
    requires
        k <= count,
    ensures
        reed_solomon::par2_constants(k) == reed_solomon::par2_constants(count).take(k as int),
{
    lemma_exponents_are_prefix(1, count, k);
    reed_solomon::lemma_exponents(1, count);
    assert(reed_solomon::par2_constants(k) =~= reed_solomon::par2_constants(count).take(k as int));
}

} // verus!
