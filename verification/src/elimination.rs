//! Gauss-Jordan elimination over GF(2^16), as a list of row operations.
//!
//! Step `k` divides row `k` by `scale[k]` and then adds `elim[r][k]` times row `k` to every other
//! row `r`. The steps are found once, on the matrix of a linear system, and are then applied to
//! right-hand sides.

use vstd::prelude::*;

use crate::galois::field;
use crate::galois::order;
use crate::galois::sums;

verus! {

/// Step `k` of the elimination, applied to a column.
pub open spec fn step(scale: Seq<u16>, elim: Seq<Seq<u16>>, k: int, acc: Seq<u16>) -> Seq<u16> {
    let p = order::quotient(acc[k], scale[k]);
    Seq::new(
        acc.len(),
        |r: int|
            if r == k {
                p
            } else {
                acc[r] ^ field::product(p, elim[r][k])
            },
    )
}

/// The first `n` steps of the elimination, applied to a column one after the other.
pub open spec fn steps(scale: Seq<u16>, elim: Seq<Seq<u16>>, n: nat, acc: Seq<u16>) -> Seq<u16>
    decreases n,
{
    if n == 0 {
        acc
    } else {
        step(scale, elim, n - 1, steps(scale, elim, (n - 1) as nat, acc))
    }
}

/// The column of `m` zeros.
pub open spec fn zeros(m: nat) -> Seq<u16> {
    Seq::new(m, |r: int| 0u16)
}

/// The column of `m` entries that is 1 in row `j` and 0 elsewhere.
pub open spec fn unit(m: nat, j: int) -> Seq<u16> {
    Seq::new(
        m,
        |r: int|
            if r == j {
                1u16
            } else {
                0u16
            },
    )
}

/// The sum of the first `n` columns, each times its entry of `v`.
pub open spec fn combination(cols: Seq<Seq<u16>>, v: Seq<u16>, m: nat, n: nat) -> Seq<u16> {
    Seq::new(m, |r: int| sums::xor_sum(|j: int| field::product(v[j], cols[j][r]), n))
}

/// Column `j` of the matrix `a`, its rows taken in the order `rows`.
pub open spec fn permuted_column(a: Seq<Seq<u16>>, rows: Seq<int>, j: int) -> Seq<u16> {
    Seq::new(rows.len(), |r: int| a[rows[r]][j])
}

/// The product of a row of `m` entries with the column `v`.
pub open spec fn row_product(row: Seq<u16>, v: Seq<u16>, m: nat) -> u16 {
    sums::xor_sum(|j: int| field::product(v[j], row[j]), m)
}

/// A vector with a nonzero entry that the `m` by `m` matrix `a` maps to zero.
pub open spec fn in_kernel(a: Seq<Seq<u16>>, m: nat, v: Seq<u16>) -> bool {
    &&& v.len() == m
    &&& exists|j: int| 0 <= j < m && #[trigger] v[j] != 0
    &&& forall|r: int| 0 <= r < m ==> #[trigger] row_product(a[r], v, m) == 0
}

/// The `m` by `m` matrix `a` is singular: it maps some nonzero vector to zero.
pub open spec fn singular(a: Seq<Seq<u16>>, m: nat) -> bool {
    exists|v: Seq<u16>| #[trigger] in_kernel(a, m, v)
}

/// The steps, with the rows taken in the order `rows`, turn the `m` by `m` matrix `a` into the
/// identity.
pub open spec fn solves(
    a: Seq<Seq<u16>>,
    rows: Seq<int>,
    scale: Seq<u16>,
    elim: Seq<Seq<u16>>,
    m: nat,
) -> bool {
    &&& sums::is_permutation(rows, m)
    &&& forall|k: int| 0 <= k < m ==> #[trigger] scale[k] != 0
    &&& forall|j: int|
        0 <= j < m ==> steps(scale, elim, m, #[trigger] permuted_column(a, rows, j)) == unit(m, j)
}

pub proof fn lemma_steps_len(scale: Seq<u16>, elim: Seq<Seq<u16>>, n: nat, acc: Seq<u16>)
    ensures
        steps(scale, elim, n, acc).len() == acc.len(),
    decreases n,
{
    if n > 0 {
        lemma_steps_len(scale, elim, (n - 1) as nat, acc);
    }
}

/// The first `n` steps depend on the first `n` scale factors and on the first `n` columns of the
/// elimination factors only.
pub proof fn lemma_steps_depend(
    scale: Seq<u16>,
    elim: Seq<Seq<u16>>,
    scale2: Seq<u16>,
    elim2: Seq<Seq<u16>>,
    n: nat,
    acc: Seq<u16>,
)
    requires
        forall|k: int| 0 <= k < n ==> #[trigger] scale[k] == scale2[k],
        forall|r: int, k: int|
            0 <= r < acc.len() && 0 <= k < n ==> #[trigger] elim[r][k] == elim2[r][k],
    ensures
        steps(scale, elim, n, acc) == steps(scale2, elim2, n, acc),
    decreases n,
{
    if n > 0 {
        let m = (n - 1) as nat;
        lemma_steps_depend(scale, elim, scale2, elim2, m, acc);
        lemma_steps_len(scale, elim, m, acc);
        let b = steps(scale, elim, m, acc);
        assert(scale[n - 1] == scale2[n - 1]);
        assert(step(scale, elim, n - 1, b) =~= step(scale2, elim2, n - 1, b));
    }
}

/// A sequence with the entries at `a` and `b` exchanged.
pub open spec fn swapped<T>(s: Seq<T>, a: int, b: int) -> Seq<T> {
    s.update(a, s[b]).update(b, s[a])
}

/// Exchanging two rows that no step has used as its pivot commutes with the steps.
pub proof fn lemma_steps_swap(
    scale: Seq<u16>,
    elim: Seq<Seq<u16>>,
    n: nat,
    acc: Seq<u16>,
    a: int,
    b: int,
)
    requires
        n <= a < acc.len(),
        n <= b < acc.len(),
        elim.len() == acc.len(),
    ensures
        steps(scale, swapped(elim, a, b), n, swapped(acc, a, b)) == swapped(
            steps(scale, elim, n, acc),
            a,
            b,
        ),
    decreases n,
{
    if n > 0 {
        let m = (n - 1) as nat;
        lemma_steps_swap(scale, elim, m, acc, a, b);
        lemma_steps_len(scale, elim, m, acc);
        let x = steps(scale, elim, m, acc);
        assert(step(scale, swapped(elim, a, b), n - 1, swapped(x, a, b)) =~= swapped(
            step(scale, elim, n - 1, x),
            a,
            b,
        ));
    }
}

/// The termwise sum of two columns.
pub open spec fn column_sum(a: Seq<u16>, b: Seq<u16>) -> Seq<u16> {
    Seq::new(a.len(), |r: int| a[r] ^ b[r])
}

/// A column times a factor.
pub open spec fn column_scale(c: u16, a: Seq<u16>) -> Seq<u16> {
    Seq::new(a.len(), |r: int| field::product(c, a[r]))
}

pub proof fn lemma_steps_add(
    scale: Seq<u16>,
    elim: Seq<Seq<u16>>,
    n: nat,
    a: Seq<u16>,
    b: Seq<u16>,
)
    requires
        a.len() == b.len(),
        n <= a.len(),
    ensures
        steps(scale, elim, n, column_sum(a, b)) == column_sum(
            steps(scale, elim, n, a),
            steps(scale, elim, n, b),
        ),
    decreases n,
{
    if n > 0 {
        let m = (n - 1) as nat;
        let k = n - 1;
        lemma_steps_add(scale, elim, m, a, b);
        lemma_steps_len(scale, elim, m, a);
        lemma_steps_len(scale, elim, m, b);
        let x = steps(scale, elim, m, a);
        let y = steps(scale, elim, m, b);
        let z = column_sum(x, y);
        let inv = order::inverse(scale[k]);
        field::law_product_distributes(x[k], y[k], inv);
        let p = order::quotient(x[k], scale[k]);
        let q = order::quotient(y[k], scale[k]);
        let left = step(scale, elim, k, z);
        let right = column_sum(step(scale, elim, k, x), step(scale, elim, k, y));
        assert forall|r: int| 0 <= r < x.len() implies left[r] == right[r] by {
            if r != k {
                field::law_product_distributes(p, q, elim[r][k]);
                field::lemma_xor_swap(
                    x[r],
                    y[r],
                    field::product(p, elim[r][k]),
                    field::product(q, elim[r][k]),
                );
            }
        }
        assert(left =~= right);
    }
}

pub proof fn lemma_steps_scale(scale: Seq<u16>, elim: Seq<Seq<u16>>, n: nat, c: u16, a: Seq<u16>)
    requires
        n <= a.len(),
    ensures
        steps(scale, elim, n, column_scale(c, a)) == column_scale(c, steps(scale, elim, n, a)),
    decreases n,
{
    if n > 0 {
        let m = (n - 1) as nat;
        let k = n - 1;
        lemma_steps_scale(scale, elim, m, c, a);
        lemma_steps_len(scale, elim, m, a);
        let x = steps(scale, elim, m, a);
        let z = column_scale(c, x);
        field::law_product_associates(c, x[k], order::inverse(scale[k]));
        let p = order::quotient(x[k], scale[k]);
        let left = step(scale, elim, k, z);
        let right = column_scale(c, step(scale, elim, k, x));
        assert forall|r: int| 0 <= r < x.len() implies left[r] == right[r] by {
            if r != k {
                field::law_product_associates(c, p, elim[r][k]);
                field::law_product_distributes(x[r], field::product(p, elim[r][k]), c);
            }
        }
        assert(left =~= right);
    }
}

pub proof fn lemma_steps_zeros(scale: Seq<u16>, elim: Seq<Seq<u16>>, n: nat, m: nat)
    requires
        n <= m,
    ensures
        steps(scale, elim, n, zeros(m)) == zeros(m),
    decreases n,
{
    if n > 0 {
        let k = n - 1;
        lemma_steps_zeros(scale, elim, (n - 1) as nat, m);
        field::law_product_zero(order::inverse(scale[k]));
        field::law_xor(0, 0, 0);
        assert forall|r: int| 0 <= r < m implies step(scale, elim, k, zeros(m))[r] == 0 by {
            field::law_product_zero(elim[r][k]);
        }
        assert(step(scale, elim, k, zeros(m)) =~= zeros(m));
    }
}

/// The steps commute with linear combinations of columns.
pub proof fn lemma_steps_combination(
    scale: Seq<u16>,
    elim: Seq<Seq<u16>>,
    n: nat,
    cols: Seq<Seq<u16>>,
    done: Seq<Seq<u16>>,
    v: Seq<u16>,
    m: nat,
    count: nat,
)
    requires
        n <= m,
        forall|j: int|
            0 <= j < count ==> (#[trigger] cols[j]).len() == m && done[j] == steps(
                scale,
                elim,
                n,
                cols[j],
            ),
    ensures
        steps(scale, elim, n, combination(cols, v, m, count)) == combination(done, v, m, count),
    decreases count,
{
    if count == 0 {
        lemma_steps_zeros(scale, elim, n, m);
        assert(combination(cols, v, m, 0) =~= zeros(m));
        assert(combination(done, v, m, 0) =~= zeros(m));
    } else {
        let c = (count - 1) as nat;
        let j = count - 1;
        lemma_steps_combination(scale, elim, n, cols, done, v, m, c);
        let part = combination(cols, v, m, c);
        let last = column_scale(v[j], cols[j]);
        assert(cols[j].len() == m);
        assert forall|r: int| 0 <= r < m implies combination(cols, v, m, count)[r] == part[r]
            ^ last[r] by {
            let f = |i: int| field::product(v[i], cols[i][r]);
            assert(sums::xor_sum(f, count) == sums::xor_sum(f, c) ^ f(j));
        }
        assert(combination(cols, v, m, count) =~= column_sum(part, last));
        lemma_steps_add(scale, elim, n, part, last);
        lemma_steps_scale(scale, elim, n, v[j], cols[j]);
        lemma_steps_len(scale, elim, n, cols[j]);
        let dpart = combination(done, v, m, c);
        let dlast = column_scale(v[j], done[j]);
        assert forall|r: int| 0 <= r < m implies combination(done, v, m, count)[r] == dpart[r]
            ^ dlast[r] by {
            let f = |i: int| field::product(v[i], done[i][r]);
            assert(sums::xor_sum(f, count) == sums::xor_sum(f, c) ^ f(j));
        }
        assert(combination(done, v, m, count) =~= column_sum(dpart, dlast));
    }
}

/// The steps map no column but zero to zero.
pub proof fn lemma_steps_injective(scale: Seq<u16>, elim: Seq<Seq<u16>>, n: nat, acc: Seq<u16>)
    requires
        n <= acc.len(),
        forall|k: int| 0 <= k < n ==> #[trigger] scale[k] != 0,
        steps(scale, elim, n, acc) == zeros(acc.len()),
    ensures
        acc == zeros(acc.len()),
    decreases n,
{
    if n > 0 {
        let k = n - 1;
        let b = steps(scale, elim, (n - 1) as nat, acc);
        lemma_steps_len(scale, elim, (n - 1) as nat, acc);
        let p = order::quotient(b[k], scale[k]);
        let out = step(scale, elim, k, b);
        assert(out[k] == 0);
        assert(p == 0);
        order::law_quotient(b[k], scale[k]);
        field::law_product_zero(scale[k]);
        assert(b[k] == 0);
        assert forall|r: int| 0 <= r < acc.len() implies b[r] == 0 by {
            assert(out[r] == 0);
            if r != k {
                field::law_product_zero(elim[r][k]);
                field::law_xor(b[r], 0, 0);
            }
        }
        assert(b =~= zeros(acc.len()));
        lemma_steps_injective(scale, elim, (n - 1) as nat, acc);
    }
}

/// If some steps turn a matrix into the identity, they turn the product of the matrix with a
/// vector into that vector.
pub proof fn lemma_solves_system(
    a: Seq<Seq<u16>>,
    rows: Seq<int>,
    scale: Seq<u16>,
    elim: Seq<Seq<u16>>,
    m: nat,
    v: Seq<u16>,
    rhs: Seq<u16>,
)
    requires
        solves(a, rows, scale, elim, m),
        v.len() == m,
        rhs.len() == m,
        forall|r: int| 0 <= r < m ==> #[trigger] rhs[r] == row_product(a[rows[r]], v, m),
    ensures
        steps(scale, elim, m, rhs) == v,
{
    let cols = Seq::new(m, |j: int| permuted_column(a, rows, j));
    let done = Seq::new(m, |j: int| unit(m, j));
    assert forall|j: int| 0 <= j < m implies (#[trigger] cols[j]).len() == m && done[j] == steps(
        scale,
        elim,
        m,
        cols[j],
    ) by {
        assert(cols[j] == permuted_column(a, rows, j));
    }
    lemma_steps_combination(scale, elim, m, cols, done, v, m, m);
    assert forall|r: int| 0 <= r < m implies combination(cols, v, m, m)[r] == rhs[r] by {
        let f = |j: int| field::product(v[j], cols[j][r]);
        let g = |j: int| field::product(v[j], a[rows[r]][j]);
        assert forall|j: int| 0 <= j < m implies #[trigger] f(j) == g(j) by {}
        sums::lemma_sum_equal(f, g, m);
    }
    assert(combination(cols, v, m, m) =~= rhs);
    assert forall|r: int| 0 <= r < m implies combination(done, v, m, m)[r] == v[r] by {
        let f = |j: int| field::product(v[j], done[j][r]);
        assert forall|j: int| 0 <= j < m && j != r implies #[trigger] f(j) == 0 by {
            field::law_product_zero(v[j]);
        }
        sums::lemma_sum_single(f, m, r);
        field::law_product_one(v[r]);
    }
    assert(combination(done, v, m, m) =~= v);
}

/// A matrix that some steps turn into the identity is not singular.
pub proof fn lemma_solved_not_singular(
    a: Seq<Seq<u16>>,
    rows: Seq<int>,
    scale: Seq<u16>,
    elim: Seq<Seq<u16>>,
    m: nat,
)
    requires
        solves(a, rows, scale, elim, m),
    ensures
        !singular(a, m),
{
    if singular(a, m) {
        let v = choose|v: Seq<u16>| #[trigger] in_kernel(a, m, v);
        let j = choose|j: int| 0 <= j < m && #[trigger] v[j] != 0;
        assert forall|r: int| 0 <= r < m implies #[trigger] zeros(m)[r] == row_product(
            a[rows[r]],
            v,
            m,
        ) by {
            assert(0 <= rows[r] < m);
        }
        lemma_solves_system(a, rows, scale, elim, m, v, zeros(m));
        lemma_steps_zeros(scale, elim, m, m);
        assert(v[j] == 0);
    }
}

/// If after `k` steps the columns before `k` are those of the identity and column `k` is zero from
/// row `k` on, the matrix is singular.
pub proof fn lemma_no_pivot_singular(
    a: Seq<Seq<u16>>,
    now: Seq<Seq<u16>>,
    rows: Seq<int>,
    scale: Seq<u16>,
    elim: Seq<Seq<u16>>,
    m: nat,
    k: nat,
)
    requires
        k < m,
        sums::is_permutation(rows, m),
        forall|i: int| 0 <= i < k ==> #[trigger] scale[i] != 0,
        forall|j: int|
            0 <= j < m ==> #[trigger] permuted_column(now, identity_order(m), j) == steps(
                scale,
                elim,
                k,
                permuted_column(a, rows, j),
            ),
        forall|r: int, j: int|
            0 <= r < m && 0 <= j < k ==> #[trigger] now[r][j] == unit(m, j)[r],
        forall|r: int| k <= r < m ==> (#[trigger] now[r])[k as int] == 0,
    ensures
        singular(a, m),
{
    let v = Seq::new(
        m,
        |j: int|
            if j < k {
                now[j][k as int]
            } else if j == k {
                1u16
            } else {
                0u16
            },
    );
    let cols = Seq::new(m, |j: int| permuted_column(a, rows, j));
    let done = Seq::new(m, |j: int| permuted_column(now, identity_order(m), j));
    assert forall|j: int| 0 <= j < m implies (#[trigger] cols[j]).len() == m && done[j] == steps(
        scale,
        elim,
        k,
        cols[j],
    ) by {
        assert(permuted_column(now, identity_order(m), j) == done[j]);
    }
    lemma_steps_combination(scale, elim, k, cols, done, v, m, m);
    assert forall|r: int| 0 <= r < m implies combination(done, v, m, m)[r] == 0 by {
        let f = |j: int| field::product(v[j], done[j][r]);
        // Only the terms of columns `r` and `k` may differ from zero, and these two are equal.
        let g = |j: int|
            if j == k {
                now[r][k as int]
            } else {
                0u16
            };
        let h = |j: int|
            if j == r && r < k {
                now[r][k as int]
            } else {
                0u16
            };
        field::law_product_one(now[r][k as int]);
        field::law_xor(0, 0, 0);
        field::law_xor(now[r][k as int], 0, 0);
        assert forall|j: int| 0 <= j < m implies #[trigger] f(j) == (|j: int| g(j) ^ h(j))(j) by {
            assert(done[j][r] == now[r][j]);
            if j < k {
                assert(now[r][j] == unit(m, j)[r]);
                field::law_product_zero(v[j]);
                field::law_product_one(v[j]);
                field::law_xor(v[j], 0, 0);
            } else if j > k {
                field::law_product_zero(now[r][j]);
            }
        }
        sums::lemma_sum_equal(f, |j: int| g(j) ^ h(j), m);
        sums::lemma_sum_add(g, h, m);
        sums::lemma_sum_single(g, m, k as int);
        if r < k {
            sums::lemma_sum_single(h, m, r);
        } else {
            sums::lemma_sum_zero(h, m);
            assert(now[r][k as int] == 0);
        }
    }
    assert(combination(done, v, m, m) =~= zeros(m));
    let w = combination(cols, v, m, m);
    lemma_steps_injective(scale, elim, k, w);
    assert forall|q: int| 0 <= q < m implies #[trigger] row_product(a[q], v, m) == 0 by {
        sums::lemma_permutation_onto(rows, m, q);
        let r = choose|r: int| 0 <= r < m && #[trigger] rows[r] == q;
        let f = |j: int| field::product(v[j], cols[j][r]);
        let g = |j: int| field::product(v[j], a[q][j]);
        assert forall|j: int| 0 <= j < m implies #[trigger] f(j) == g(j) by {}
        sums::lemma_sum_equal(f, g, m);
        assert(w[r] == 0);
    }
    assert(v[k as int] != 0);
    assert(in_kernel(a, m, v));
}

/// The rows `0..m` in their own order.
pub open spec fn identity_order(m: nat) -> Seq<int> {
    Seq::new(m, |r: int| r)
}

} // verus!
