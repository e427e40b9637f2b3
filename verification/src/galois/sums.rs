//! Finite sums in GF(2^16).

use vstd::prelude::*;

use crate::galois::field;

verus! {

/// The sum in the field of `f(0)`, ..., `f(n - 1)`.
pub open spec fn xor_sum(f: spec_fn(int) -> u16, n: nat) -> u16
    decreases n,
{
    if n == 0 {
        0
    } else {
        xor_sum(f, (n - 1) as nat) ^ f(n - 1)
    }
}

/// A sum depends only on its terms.
pub proof fn lemma_sum_equal(f: spec_fn(int) -> u16, g: spec_fn(int) -> u16, n: nat)
    requires
        forall|i: int| 0 <= i < n ==> #[trigger] f(i) == g(i),
    ensures
        xor_sum(f, n) == xor_sum(g, n),
    decreases n,
{
    if n > 0 {
        lemma_sum_equal(f, g, (n - 1) as nat);
        assert(f(n - 1) == g(n - 1));
    }
}

/// A sum of zeros is 0.
pub proof fn lemma_sum_zero(f: spec_fn(int) -> u16, n: nat)
    requires
        forall|i: int| 0 <= i < n ==> #[trigger] f(i) == 0,
    ensures
        xor_sum(f, n) == 0,
    decreases n,
{
    field::law_xor(0, 0, 0);
    if n > 0 {
        lemma_sum_zero(f, (n - 1) as nat);
        assert(f(n - 1) == 0);
    }
}

/// The sum of sums is the sum of the termwise sums.
pub proof fn lemma_sum_add(f: spec_fn(int) -> u16, g: spec_fn(int) -> u16, n: nat)
    ensures
        xor_sum(|i: int| f(i) ^ g(i), n) == xor_sum(f, n) ^ xor_sum(g, n),
    decreases n,
{
    let h = |i: int| f(i) ^ g(i);
    field::law_xor(0, 0, 0);
    if n > 0 {
        let m = (n - 1) as nat;
        lemma_sum_add(f, g, m);
        field::lemma_xor_swap(xor_sum(f, m), xor_sum(g, m), f(n - 1), g(n - 1));
        assert(h(n - 1) == f(n - 1) ^ g(n - 1));
    }
}

/// A factor may be drawn out of a sum.
pub proof fn lemma_sum_scale(c: u16, f: spec_fn(int) -> u16, n: nat)
    ensures
        xor_sum(|i: int| field::product(c, f(i)), n) == field::product(c, xor_sum(f, n)),
    decreases n,
{
    let h = |i: int| field::product(c, f(i));
    field::law_product_zero(c);
    if n > 0 {
        let m = (n - 1) as nat;
        lemma_sum_scale(c, f, m);
        field::law_product_distributes(xor_sum(f, m), f(n - 1), c);
        assert(h(n - 1) == field::product(c, f(n - 1)));
    }
}

/// A sum with a single nonzero term is that term.
pub proof fn lemma_sum_single(f: spec_fn(int) -> u16, n: nat, k: int)
    requires
        0 <= k < n,
        forall|i: int| 0 <= i < n && i != k ==> #[trigger] f(i) == 0,
    ensures
        xor_sum(f, n) == f(k),
    decreases n,
{
    let m = (n - 1) as nat;
    field::law_xor(f(k), 0, 0);
    if k == m {
        lemma_sum_zero(f, m);
    } else {
        lemma_sum_single(f, m, k);
        assert(f(m as int) == 0);
    }
}

/// A sum splits into the sum of its first terms and the sum of the rest.
pub proof fn lemma_sum_split(f: spec_fn(int) -> u16, a: nat, b: nat)
    ensures
        xor_sum(f, a + b) == xor_sum(f, a) ^ xor_sum(|i: int| f(a + i), b),
    decreases b,
{
    let g = |i: int| f(a + i);
    field::law_xor(xor_sum(f, a), 0, 0);
    if b > 0 {
        let c = (b - 1) as nat;
        lemma_sum_split(f, a, c);
        assert((a + b - 1) as nat == a + c);
        assert(g(c as int) == f(a + b - 1));
        field::law_xor(xor_sum(f, a), xor_sum(g, c), g(c as int));
    }
}

/// The terms of a sum taken at the indices `at`.
pub open spec fn sum_at(f: spec_fn(int) -> u16, at: Seq<int>) -> u16 {
    xor_sum(|k: int| f(at[k]), at.len())
}

/// Taking one index out of the list takes its term out of the sum.
proof fn lemma_sum_at_remove(f: spec_fn(int) -> u16, at: Seq<int>, p: int)
    requires
        0 <= p < at.len(),
    ensures
        sum_at(f, at) == sum_at(f, at.remove(p)) ^ f(at[p]),
    decreases at.len(),
{
    let n = at.len();
    let last = n - 1;
    let g = |k: int| f(at[k]);
    let r = at.remove(p);
    let h = |k: int| f(r[k]);
    assert(g(last) == f(at[last]));
    if p == last {
        assert forall|k: int| 0 <= k < last implies #[trigger] g(k) == h(k) by {}
        lemma_sum_equal(g, h, last as nat);
    } else {
        let front = at.drop_last();
        lemma_sum_at_remove(f, front, p);
        let gf = |k: int| f(front[k]);
        lemma_sum_equal(g, gf, last as nat);
        let fr = front.remove(p);
        let hf = |k: int| f(fr[k]);
        assert(r.len() == last);
        assert forall|k: int| 0 <= k < last - 1 implies #[trigger] h(k) == hf(k) by {}
        lemma_sum_equal(h, hf, (last - 1) as nat);
        assert(r[last - 1] == at[last]);
        assert(h(last - 1) == f(at[last]));
        let a = xor_sum(hf, (last - 1) as nat);
        let b = f(at[p]);
        let c = f(at[last]);
        field::law_xor(a, b, c);
        field::law_xor(b, c, 0);
        field::law_xor(a, c, b);
    }
}

/// A list of indices that names each of `0..n` exactly once.
pub open spec fn is_permutation(at: Seq<int>, n: nat) -> bool {
    &&& at.len() == n
    &&& forall|i: int| 0 <= i < n ==> 0 <= #[trigger] at[i] < n
    &&& forall|i: int, j: int|
        0 <= i < j < n ==> #[trigger] at[i] != #[trigger] at[j]
}

/// A permutation of `0..n` meets every index below `n`.
pub proof fn lemma_permutation_onto(at: Seq<int>, n: nat, v: int)
    requires
        is_permutation(at, n),
        0 <= v < n,
    ensures
        exists|k: int| 0 <= k < n && #[trigger] at[k] == v,
{
    let s = at.to_set();
    at.unique_seq_to_set();
    let all = vstd::set_lib::set_int_range(0, n as int);
    vstd::set_lib::lemma_int_range(0, n as int);
    assert forall|x: int| s.contains(x) implies all.contains(x) by {
        let k = choose|k: int| 0 <= k < at.len() && at[k] == x;
    }
    vstd::set_lib::lemma_subset_equality(s, all);
    assert(s.contains(v));
    assert(at.contains(v));
}

/// Different indices below `n` that meet every index below `n` are a permutation.
pub proof fn lemma_onto_permutation(at: Seq<int>, n: nat)
    requires
        forall|i: int| 0 <= i < at.len() ==> 0 <= #[trigger] at[i] < n,
        forall|i: int, j: int| 0 <= i < j < at.len() ==> #[trigger] at[i] != #[trigger] at[j],
        forall|v: int| 0 <= v < n ==> #[trigger] at.contains(v),
    ensures
        is_permutation(at, n),
{
    let s = at.to_set();
    at.unique_seq_to_set();
    let all = vstd::set_lib::set_int_range(0, n as int);
    vstd::set_lib::lemma_int_range(0, n as int);
    assert forall|x: int| s.contains(x) <==> all.contains(x) by {
        if s.contains(x) {
            let k = choose|k: int| 0 <= k < at.len() && at[k] == x;
        }
        if all.contains(x) {
            assert(at.contains(x));
        }
    }
    assert(s =~= all);
}

/// A sum over `0..n` may be taken in any order.
pub proof fn lemma_sum_permuted(f: spec_fn(int) -> u16, at: Seq<int>, n: nat)
    requires
        is_permutation(at, n),
    ensures
        sum_at(f, at) == xor_sum(f, n),
    decreases n,
{
    if n > 0 {
        let m = (n - 1) as nat;
        lemma_permutation_onto(at, n, m as int);
        let p = choose|k: int| 0 <= k < n && #[trigger] at[k] == m as int;
        let r = at.remove(p);
        assert forall|i: int| 0 <= i < m implies 0 <= #[trigger] r[i] < m by {
            let k = if i < p {
                i
            } else {
                i + 1
            };
            assert(r[i] == at[k]);
            if k < p {
                assert(at[k] != at[p]);
            } else {
                assert(at[p] != at[k]);
            }
        }
        assert forall|i: int, j: int| 0 <= i < j < m implies #[trigger] r[i] != #[trigger] r[j] by {
            let a = if i < p {
                i
            } else {
                i + 1
            };
            let b = if j < p {
                j
            } else {
                j + 1
            };
            assert(at[a] != at[b]);
        }
        lemma_sum_permuted(f, r, m);
        lemma_sum_at_remove(f, at, p);
    }
}

} // verus!
