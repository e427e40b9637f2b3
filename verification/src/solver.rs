//! Finding the row operations that solve a linear system over GF(2^16).

use vstd::prelude::*;

use crate::elimination;
use crate::galois::bulk;
use crate::galois::element::{gf_div, gf_mul};
use crate::galois::field;
use crate::galois::order;
use crate::galois::sums;

verus! {

/// The row operations that turn a matrix into the identity.
pub struct RowOperations {
    /// Row `r` starts as row `row_order[r]` of the matrix.
    pub row_order: Vec<usize>,
    /// What each row is divided by in its step.
    pub scale_factors: Vec<u16>,
    /// What of row `k` is added to row `r` in step `k`.
    pub elimination_factors: Vec<Vec<u16>>,
}

/// Indices as mathematical integers.
pub open spec fn indices(v: Seq<usize>) -> Seq<int> {
    Seq::new(v.len(), |i: int| v[i] as int)
}

/// The first `k` steps have been found: they turn `a0`, its rows in the order `rows`, into `a`,
/// whose first `k` columns are those of the identity.
spec fn progress(
    a0: Seq<Seq<u16>>,
    a: Seq<Seq<u16>>,
    rows: Seq<int>,
    scale: Seq<u16>,
    elim: Seq<Seq<u16>>,
    m: nat,
    k: nat,
) -> bool {
    &&& k <= m
    &&& a.len() == m
    &&& scale.len() == m
    &&& elim.len() == m
    &&& forall|r: int| 0 <= r < m ==> (#[trigger] a[r]).len() == m
    &&& forall|r: int| 0 <= r < m ==> (#[trigger] elim[r]).len() == m
    &&& sums::is_permutation(rows, m)
    &&& forall|i: int| 0 <= i < k ==> #[trigger] scale[i] != 0
    &&& forall|j: int|
        0 <= j < m ==> #[trigger] elimination::permuted_column(
            a,
            elimination::identity_order(m),
            j,
        ) == elimination::steps(scale, elim, k, elimination::permuted_column(a0, rows, j))
    &&& forall|r: int, j: int|
        0 <= r < m && 0 <= j < k ==> #[trigger] a[r][j] == elimination::unit(m, j)[r]
}

/// Exchanging two rows that no step has used keeps the progress.
proof fn lemma_progress_swap(
    a0: Seq<Seq<u16>>,
    a: Seq<Seq<u16>>,
    rows: Seq<int>,
    scale: Seq<u16>,
    elim: Seq<Seq<u16>>,
    m: nat,
    k: nat,
    p: int,
    q: int,
)
    requires
        progress(a0, a, rows, scale, elim, m, k),
        k <= p < q < m,
    ensures
        progress(
            a0,
            elimination::swapped(a, p, q),
            elimination::swapped(rows, p, q),
            elimination::swapped(scale, p, q),
            elimination::swapped(elim, p, q),
            m,
            k,
        ),
{
    let a2 = elimination::swapped(a, p, q);
    let rows2 = elimination::swapped(rows, p, q);
    let scale2 = elimination::swapped(scale, p, q);
    let elim2 = elimination::swapped(elim, p, q);
    let id = elimination::identity_order(m);
    assert forall|i: int| 0 <= i < m implies 0 <= #[trigger] rows2[i] < m by {
        assert(0 <= rows[i] < m && 0 <= rows[p] < m && 0 <= rows[q] < m);
    }
    assert forall|i: int, j: int| 0 <= i < j < m implies #[trigger] rows2[i]
        != #[trigger] rows2[j] by {
        let x = if i == p {
            q
        } else if i == q {
            p
        } else {
            i
        };
        let y = if j == p {
            q
        } else if j == q {
            p
        } else {
            j
        };
        assert(rows2[i] == rows[x] && rows2[j] == rows[y]);
        if x < y {
            assert(rows[x] != rows[y]);
        } else {
            assert(rows[y] != rows[x]);
        }
    }
    assert forall|j: int| 0 <= j < m implies #[trigger] elimination::permuted_column(a2, id, j)
        == elimination::steps(
        scale2,
        elim2,
        k,
        elimination::permuted_column(a0, rows2, j),
    ) by {
        let c0 = elimination::permuted_column(a0, rows, j);
        let c = elimination::permuted_column(a, id, j);
        assert(c == elimination::steps(scale, elim, k, c0));
        elimination::lemma_steps_swap(scale, elim, k, c0, p, q);
        assert(elimination::permuted_column(a0, rows2, j) =~= elimination::swapped(c0, p, q));
        assert(elimination::permuted_column(a2, id, j) =~= elimination::swapped(c, p, q));
        elimination::lemma_steps_depend(
            scale,
            elim2,
            scale2,
            elim2,
            k,
            elimination::swapped(c0, p, q),
        );
    }
    assert forall|r: int, j: int| 0 <= r < m && 0 <= j < k implies #[trigger] a2[r][j]
        == elimination::unit(m, j)[r] by {
        assert(a[r][j] == elimination::unit(m, j)[r]);
        assert(a[p][j] == elimination::unit(m, j)[p]);
        assert(a[q][j] == elimination::unit(m, j)[q]);
    }
}

/// The matrix after step `k`.
spec fn next_matrix(a: Seq<Seq<u16>>, m: nat, k: int) -> Seq<Seq<u16>> {
    let pivot_row = Seq::new(
        m,
        |j: int|
            if j < k {
                a[k][j]
            } else {
                order::quotient(a[k][j], a[k][k])
            },
    );
    Seq::new(
        m,
        |r: int|
            if r == k {
                pivot_row
            } else {
                added_row(a[r], pivot_row, k, a[r][k])
            },
    )
}

/// A row with `factor` times the pivot row added from column `k` on.
spec fn added_row(row: Seq<u16>, pivot_row: Seq<u16>, k: int, factor: u16) -> Seq<u16> {
    Seq::new(
        row.len(),
        |j: int|
            if j < k {
                row[j]
            } else {
                row[j] ^ field::product(pivot_row[j], factor)
            },
    )
}

/// Recording step `k` and carrying it out on the matrix keeps the progress.
proof fn lemma_progress_step(
    a0: Seq<Seq<u16>>,
    a: Seq<Seq<u16>>,
    rows: Seq<int>,
    scale: Seq<u16>,
    elim: Seq<Seq<u16>>,
    m: nat,
    k: nat,
    scale2: Seq<u16>,
    elim2: Seq<Seq<u16>>,
)
    requires
        progress(a0, a, rows, scale, elim, m, k),
        k < m,
        a[k as int][k as int] != 0,
        scale2 == scale.update(k as int, a[k as int][k as int]),
        elim2.len() == m,
        forall|r: int|
            0 <= r < m ==> #[trigger] elim2[r] == (if r == k {
                elim[r]
            } else {
                elim[r].update(k as int, a[r][k as int])
            }),
    ensures
        progress(a0, next_matrix(a, m, k as int), rows, scale2, elim2, m, k + 1),
{
    let kk = k as int;
    let a2 = next_matrix(a, m, kk);
    let id = elimination::identity_order(m);
    let pivot = a[kk][kk];
    assert forall|r: int| 0 <= r < m implies (#[trigger] a2[r]).len() == m by {
        assert(a[r].len() == m);
    }
    assert forall|j: int| 0 <= j < m implies #[trigger] elimination::permuted_column(a2, id, j)
        == elimination::steps(
        scale2,
        elim2,
        k + 1,
        elimination::permuted_column(a0, rows, j),
    ) by {
        let c0 = elimination::permuted_column(a0, rows, j);
        let c = elimination::permuted_column(a, id, j);
        assert(c == elimination::steps(scale, elim, k, c0));
        assert forall|r: int, i: int|
            0 <= r < c0.len() && 0 <= i < k implies #[trigger] elim[r][i] == elim2[r][i] by {}
        elimination::lemma_steps_depend(scale, elim, scale2, elim2, k, c0);
        assert(elimination::steps(scale2, elim2, k + 1, c0) == elimination::step(
            scale2,
            elim2,
            kk,
            c,
        ));
        let want = elimination::step(scale2, elim2, kk, c);
        let got = elimination::permuted_column(a2, id, j);
        let p = order::quotient(c[kk], pivot);
        if j < k {
            assert(a[kk][j] == elimination::unit(m, j)[kk]);
            field::law_product_zero(order::inverse(pivot));
        }
        assert forall|r: int| 0 <= r < m implies got[r] == want[r] by {
            assert(c[r] == a[r][j]);
            if j < k {
                assert(p == 0);
                field::law_product_zero(a[r][kk]);
                field::law_xor(c[r], 0, 0);
            }
        }
        assert(got =~= want);
    }
    assert forall|r: int, j: int| 0 <= r < m && 0 <= j < k + 1 implies #[trigger] a2[r][j]
        == elimination::unit(m, j)[r] by {
        if j < k {
            assert(a[r][j] == elimination::unit(m, j)[r]);
        } else {
            order::law_inverse(pivot);
            field::law_product_one(a[r][kk]);
            field::law_xor(a[r][kk], 0, 0);
        }
    }
}

/// Exchange two rows.
fn swap_rows(v: &mut Vec<Vec<u16>>, p: usize, q: usize)
    requires
        p < old(v)@.len(),
        q < old(v)@.len(),
    ensures
        bulk::row_views(final(v)@) == elimination::swapped(
            bulk::row_views(old(v)@),
            p as int,
            q as int,
        ),
{
    let x: Vec<u16> = v[p].clone();
    let y: Vec<u16> = v[q].clone();
    v.set(p, y);
    v.set(q, x);
    assert(bulk::row_views(v@) =~= elimination::swapped(
        bulk::row_views(old(v)@),
        p as int,
        q as int,
    ));
}

/// Divide the entries of a row from column `k` on by the pivot.
fn scale_row(row: &mut Vec<u16>, k: usize, pivot: u16)
    requires
        pivot != 0,
        k <= old(row)@.len(),
    ensures
        final(row)@ == Seq::new(
            old(row)@.len(),
            |j: int|
                if j < k {
                    old(row)@[j]
                } else {
                    order::quotient(old(row)@[j], pivot)
                },
        ),
{
    let m: usize = row.len();
    for j in k..m
        invariant
            pivot != 0,
            row@.len() == m,
            m == old(row)@.len(),
            forall|i: int|
                k <= i < j ==> #[trigger] row@[i] == order::quotient(old(row)@[i], pivot),
            forall|i: int| 0 <= i < k || j <= i < m ==> #[trigger] row@[i] == old(row)@[i],
    {
        if row[j] != 0 {
            match gf_div(row[j], pivot) {
                Some(q) => {
                    row.set(j, q);
                },
                None => {},
            }
        } else {
            proof {
                field::law_product_zero(order::inverse(pivot));
            }
        }
    }
    assert(row@ =~= Seq::new(
        old(row)@.len(),
        |j: int|
            if j < k {
                old(row)@[j]
            } else {
                order::quotient(old(row)@[j], pivot)
            },
    ));
}

/// Add `factor` times the pivot row to a row, from column `k` on.
fn add_row(row: &mut Vec<u16>, pivot_row: &Vec<u16>, k: usize, factor: u16)
    requires
        k <= old(row)@.len(),
        old(row)@.len() == pivot_row@.len(),
    ensures
        final(row)@ == added_row(old(row)@, pivot_row@, k as int, factor),
{
    let m: usize = row.len();
    for j in k..m
        invariant
            row@.len() == m,
            m == old(row)@.len(),
            m == pivot_row@.len(),
            forall|i: int|
                k <= i < j ==> #[trigger] row@[i] == old(row)@[i] ^ field::product(
                    pivot_row@[i],
                    factor,
                ),
            forall|i: int| 0 <= i < k || j <= i < m ==> #[trigger] row@[i] == old(row)@[i],
    {
        let sum: u16 = row[j] ^ gf_mul(pivot_row[j], factor);
        row.set(j, sum);
    }
    assert(row@ =~= added_row(old(row)@, pivot_row@, k as int, factor));
}

/// The first row after `k` that is not 0 in column `k`.
fn find_pivot(a: &Vec<Vec<u16>>, m: usize, k: usize) -> (r: Option<usize>)
    requires
        k < m,
        a@.len() == m,
        forall|i: int| 0 <= i < m ==> (#[trigger] a@[i])@.len() == m,
    ensures
        r matches Some(p) ==> k < p < m && a@[p as int]@[k as int] != 0,
        r is None ==> forall|i: int| k < i < m ==> (#[trigger] a@[i])@[k as int] == 0,
{
    for p in k + 1..m
        invariant
            k < m,
            a@.len() == m,
            forall|i: int| 0 <= i < m ==> (#[trigger] a@[i])@.len() == m,
            forall|i: int| k < i < p ==> (#[trigger] a@[i])@[k as int] == 0,
    {
        if a[p][k] != 0 {
            return Some(p);
        }
    }
    None
}

/// Find the row operations that turn an `m` by `m` matrix into the identity. `None` if there are
/// none, that is, if the matrix is singular.
pub fn eliminate(matrix: Vec<Vec<u16>>, m: usize) -> (r: Option<RowOperations>)
    requires
        matrix@.len() == m,
        forall|i: int| 0 <= i < m ==> (#[trigger] matrix@[i])@.len() == m,
    ensures
        r is None <==> elimination::singular(bulk::row_views(matrix@), m as nat),
        r matches Some(ops) ==> {
            &&& ops.row_order@.len() == m
            &&& ops.scale_factors@.len() == m
            &&& ops.elimination_factors@.len() == m
            &&& forall|i: int|
                0 <= i < m ==> (#[trigger] ops.elimination_factors@[i])@.len() == m
            &&& elimination::solves(
                bulk::row_views(matrix@),
                indices(ops.row_order@),
                ops.scale_factors@,
                bulk::row_views(ops.elimination_factors@),
                m as nat,
            )
        },
{
    let ghost a0 = bulk::row_views(matrix@);
    let mut a: Vec<Vec<u16>> = matrix;
    let mut row_order: Vec<usize> = Vec::with_capacity(m);
    let mut elim: Vec<Vec<u16>> = Vec::with_capacity(m);
    for i in 0..m
        invariant
            row_order@.len() == i,
            elim@.len() == i,
            forall|j: int| 0 <= j < i ==> #[trigger] row_order@[j] == j,
            forall|j: int| 0 <= j < i ==> (#[trigger] elim@[j])@.len() == m,
    {
        row_order.push(i);
        let zero_row: Vec<u16> = vec![0u16; m];
        elim.push(zero_row);
    }
    let mut scale: Vec<u16> = vec![1u16; m];
    proof {
        let id = elimination::identity_order(m as nat);
        assert(indices(row_order@) =~= id);
        assert forall|j: int| 0 <= j < m implies #[trigger] elimination::permuted_column(
            bulk::row_views(a@),
            id,
            j,
        ) == elimination::steps(
            scale@,
            bulk::row_views(elim@),
            0,
            elimination::permuted_column(a0, indices(row_order@), j),
        ) by {}
        assert(progress(
            a0,
            bulk::row_views(a@),
            indices(row_order@),
            scale@,
            bulk::row_views(elim@),
            m as nat,
            0,
        ));
    }
    for k in 0..m
        invariant
            a0 == bulk::row_views(matrix@),
            a@.len() == m,
            elim@.len() == m,
            row_order@.len() == m,
            scale@.len() == m,
            progress(
                a0,
                bulk::row_views(a@),
                indices(row_order@),
                scale@,
                bulk::row_views(elim@),
                m as nat,
                k as nat,
            ),
    {
        proof {
            assert forall|i: int| 0 <= i < m implies (#[trigger] a@[i])@.len() == m by {
                assert(bulk::row_views(a@)[i].len() == m);
            }
            assert forall|i: int| 0 <= i < m implies (#[trigger] elim@[i])@.len() == m by {
                assert(bulk::row_views(elim@)[i].len() == m);
            }
        }
        if a[k][k] == 0 {
            match find_pivot(&a, m, k) {
                Some(p) => {
                    let ghost va = bulk::row_views(a@);
                    let ghost ve = bulk::row_views(elim@);
                    let ghost vr = indices(row_order@);
                    let ghost vs = scale@;
                    swap_rows(&mut a, k, p);
                    let x: usize = row_order[k];
                    let y: usize = row_order[p];
                    row_order.set(k, y);
                    row_order.set(p, x);
                    let u: u16 = scale[k];
                    let v: u16 = scale[p];
                    scale.set(k, v);
                    scale.set(p, u);
                    swap_rows(&mut elim, k, p);
                    proof {
                        lemma_progress_swap(
                            a0,
                            va,
                            vr,
                            vs,
                            ve,
                            m as nat,
                            k as nat,
                            k as int,
                            p as int,
                        );
                        assert(indices(row_order@) =~= elimination::swapped(
                            vr,
                            k as int,
                            p as int,
                        ));
                        assert(scale@ =~= elimination::swapped(vs, k as int, p as int));
                        assert(bulk::row_views(a@)[k as int] == a@[k as int]@);
                        assert(va[p as int][k as int] != 0);
                    }
                },
                None => {
                    proof {
                        let va = bulk::row_views(a@);
                        assert forall|r: int| k <= r < m implies (#[trigger] va[r])[k as int]
                            == 0 by {
                            assert(va[r] == a@[r]@);
                        }
                        elimination::lemma_no_pivot_singular(
                            a0,
                            va,
                            indices(row_order@),
                            scale@,
                            bulk::row_views(elim@),
                            m as nat,
                            k as nat,
                        );
                    }
                    return None;
                },
            }
        }
        let ghost va = bulk::row_views(a@);
        let ghost ve = bulk::row_views(elim@);
        let ghost vs = scale@;
        proof {
            assert forall|i: int| 0 <= i < m implies (#[trigger] a@[i])@.len() == m by {
                assert(va[i].len() == m);
            }
            assert forall|i: int| 0 <= i < m implies (#[trigger] elim@[i])@.len() == m by {
                assert(ve[i].len() == m);
            }
            assert(va[k as int] == a@[k as int]@);
        }
        let pivot: u16 = a[k][k];
        scale.set(k, pivot);
        scale_row(&mut a[k], k, pivot);
        let pivot_row: Vec<u16> = a[k].clone();
        let ghost next = next_matrix(va, m as nat, k as int);
        proof {
            assert(pivot_row@ =~= next[k as int]);
        }
        for r in 0..m
            invariant
                k < m,
                a@.len() == m,
                elim@.len() == m,
                va.len() == m,
                ve.len() == m,
                next == next_matrix(va, m as nat, k as int),
                pivot_row@ == next[k as int],
                pivot_row@.len() == m,
                a@[k as int]@ == next[k as int],
                forall|i: int| 0 <= i < m ==> (#[trigger] va[i]).len() == m,
                forall|i: int| 0 <= i < m ==> (#[trigger] ve[i]).len() == m,
                forall|i: int| 0 <= i < r ==> (#[trigger] a@[i])@ == next[i],
                forall|i: int| r <= i < m && i != k ==> (#[trigger] a@[i])@ == va[i],
                forall|i: int|
                    0 <= i < r ==> (#[trigger] elim@[i])@ == (if i == k {
                        ve[i]
                    } else {
                        ve[i].update(k as int, va[i][k as int])
                    }),
                forall|i: int| r <= i < m ==> (#[trigger] elim@[i])@ == ve[i],
        {
            if r != k {
                let factor: u16 = a[r][k];
                elim[r][k] = factor;
                if factor != 0 {
                    add_row(&mut a[r], &pivot_row, k, factor);
                } else {
                    proof {
                        let row = a@[r as int]@;
                        let after = added_row(row, pivot_row@, k as int, 0);
                        assert forall|j: int| 0 <= j < m implies after[j] == row[j] by {
                            field::law_product_zero(pivot_row@[j]);
                            field::law_xor(row[j], 0, 0);
                        }
                        assert(after =~= row);
                    }
                }
            }
        }
        proof {
            assert(bulk::row_views(a@) =~= next);
            lemma_progress_step(
                a0,
                va,
                indices(row_order@),
                vs,
                ve,
                m as nat,
                k as nat,
                scale@,
                bulk::row_views(elim@),
            );
        }
    }
    proof {
        let mm = m as nat;
        let ve = bulk::row_views(elim@);
        let rows = indices(row_order@);
        let va = bulk::row_views(a@);
        assert forall|j: int| 0 <= j < mm implies elimination::steps(
            scale@,
            ve,
            mm,
            #[trigger] elimination::permuted_column(a0, rows, j),
        ) == elimination::unit(mm, j) by {
            let c = elimination::permuted_column(va, elimination::identity_order(mm), j);
            assert forall|r: int| 0 <= r < mm implies c[r] == elimination::unit(mm, j)[r] by {
                assert(va[r][j] == elimination::unit(mm, j)[r]);
            }
            assert(c =~= elimination::unit(mm, j));
        }
        elimination::lemma_solved_not_singular(a0, rows, scale@, ve, mm);
        assert forall|i: int| 0 <= i < m implies (#[trigger] elim@[i])@.len() == m by {
            assert(ve[i].len() == m);
        }
    }
    Some(
        RowOperations {
            row_order,
            scale_factors: scale,
            elimination_factors: elim,
        },
    )
}

} // verus!
