//! Orders of file IDs, and stable sorting.

use vstd::prelude::*;

use crate::galois::sums;
use crate::numbers;
use crate::packets::FileHash;
use crate::solver;

verus! {

/// The number whose little-endian bytes are an ID.
pub open spec fn little_endian(id: Seq<u8>) -> u128 {
    numbers::number(id) as u128
}

/// The number whose big-endian bytes are an ID. IDs in the order of these numbers are in
/// lexicographic order.
pub open spec fn big_endian(id: Seq<u8>) -> u128 {
    numbers::number(id.reverse()) as u128
}

/// Different IDs have different numbers, read from either end.
pub proof fn law_ids_have_different_numbers(a: Seq<u8>, b: Seq<u8>)
    requires
        a.len() == 16,
        b.len() == 16,
    ensures
        little_endian(a) == little_endian(b) ==> a == b,
        big_endian(a) == big_endian(b) ==> a == b,
{
    numbers::lemma_number_of_16(a);
    numbers::lemma_number_of_16(b);
    numbers::lemma_number_of_16(a.reverse());
    numbers::lemma_number_of_16(b.reverse());
    if little_endian(a) == little_endian(b) {
        numbers::lemma_number_injective(a, b);
    }
    if big_endian(a) == big_endian(b) {
        numbers::lemma_number_injective(a.reverse(), b.reverse());
        assert(a.reverse().reverse() =~= a);
        assert(b.reverse().reverse() =~= b);
    }
}

/// An ID as a little-endian number.
pub fn little_endian_number(id: &FileHash) -> (r: u128)
    ensures
        r == little_endian(id@),
{
    let mut value: u128 = 0;
    let mut i: usize = 16;
    proof {
        numbers::lemma_number_of_16(id@);
    }
    while i > 0
        invariant
            i <= 16,
            value == numbers::number(id@.skip(i as int)),
        decreases i,
    {
        proof {
            let here = id@.skip(i - 1);
            assert(here.skip(1) =~= id@.skip(i as int));
            assert(here[0] == id@[i - 1]);
            numbers::lemma_number_of_16(here);
        }
        i = i - 1;
        value = value * 256 + id[i] as u128;
    }
    assert(id@.skip(0) =~= id@);
    value
}

/// An ID as a big-endian number.
pub fn big_endian_number(id: &FileHash) -> (r: u128)
    ensures
        r == big_endian(id@),
{
    let mut reversed: [u8; 16] = [0u8; 16];
    for i in 0..16usize
        invariant
            forall|j: int| 0 <= j < i ==> reversed@[j] == id@[15 - j],
    {
        reversed[i] = id[15 - i];
    }
    assert(reversed@ =~= id@.reverse());
    little_endian_number(&reversed)
}

/// Compare two file IDs as little-endian numbers: the last byte decides first.
pub fn cmp_file_id_par2(a: &FileHash, b: &FileHash) -> (r: core::cmp::Ordering)
    ensures
        (r == core::cmp::Ordering::Less) <==> little_endian(a@) < little_endian(b@),
        (r == core::cmp::Ordering::Equal) <==> little_endian(a@) == little_endian(b@),
        (r == core::cmp::Ordering::Greater) <==> little_endian(a@) > little_endian(b@),
{
    let x: u128 = little_endian_number(a);
    let y: u128 = little_endian_number(b);
    if x < y {
        core::cmp::Ordering::Less
    } else if x == y {
        core::cmp::Ordering::Equal
    } else {
        core::cmp::Ordering::Greater
    }
}

/// Key `a` is smaller than key `b`: the first number decides, then the second.
pub open spec fn key_less(a: (u64, u128), b: (u64, u128)) -> bool {
    a.0 < b.0 || (a.0 == b.0 && a.1 < b.1)
}

/// The item at `i` goes before the item at `j`: its key is smaller, or the keys are equal and it
/// stands before it.
pub open spec fn goes_before(keys: Seq<(u64, u128)>, i: int, j: int) -> bool {
    key_less(keys[i], keys[j]) || (keys[i] == keys[j] && i < j)
}

/// `order` lists the items by their keys, items with equal keys as they stand.
pub open spec fn is_stable_order(keys: Seq<(u64, u128)>, order: Seq<int>) -> bool {
    &&& sums::is_permutation(order, keys.len())
    &&& forall|i: int, j: int|
        0 <= i < j < keys.len() ==> goes_before(
            keys,
            #[trigger] order[i],
            #[trigger] order[j],
        )
}

/// Items in an order.
pub open spec fn arranged<A>(items: Seq<A>, order: Seq<int>) -> Seq<A> {
    Seq::new(order.len(), |i: int| items[order[i]])
}

/// There is only one stable order.
pub proof fn law_stable_order_unique(keys: Seq<(u64, u128)>, a: Seq<int>, b: Seq<int>)
    requires
        is_stable_order(keys, a),
        is_stable_order(keys, b),
    ensures
        a == b,
{
    let n = keys.len();
    if a != b {
        assert(exists|k: int| 0 <= k < n && a[k] != b[k]) by {
            if forall|k: int| 0 <= k < n ==> a[k] == b[k] {
                assert(a =~= b);
            }
        }
        let k = choose|k: int| 0 <= k < n && a[k] != b[k];
        lemma_first_difference(keys, a, b, k);
    }
}

proof fn lemma_first_difference(keys: Seq<(u64, u128)>, a: Seq<int>, b: Seq<int>, k: int)
    requires
        is_stable_order(keys, a),
        is_stable_order(keys, b),
        0 <= k < keys.len(),
    ensures
        a[k] == b[k],
    decreases k,
{
    let n = keys.len();
    assert forall|i: int| 0 <= i < k implies a[i] == b[i] by {
        lemma_first_difference(keys, a, b, i);
    }
    if a[k] != b[k] {
        sums::lemma_permutation_onto(b, n, a[k]);
        let p = choose|p: int| 0 <= p < n && #[trigger] b[p] == a[k];
        if p < k {
            assert(a[p] == b[p]);
            assert(a[p] != a[k]);
        }
        assert(p > k);
        assert(goes_before(keys, b[k], b[p]));
        sums::lemma_permutation_onto(a, n, b[k]);
        let q = choose|q: int| 0 <= q < n && #[trigger] a[q] == b[k];
        if q < k {
            assert(a[q] == b[q]);
            assert(b[q] != b[k]);
        }
        assert(q > k);
        assert(goes_before(keys, a[k], a[q]));
    }
}

/// Where an item goes among items in order: behind all that are not larger.
proof fn lemma_place(keys: Seq<(u64, u128)>, before: Seq<int>, i: int, from: int) -> (at: int)
    requires
        0 <= from <= before.len(),
        forall|k: int|
            from <= k < before.len() ==> key_less(keys[i], keys[#[trigger] before[k]]),
    ensures
        0 <= at <= from,
        forall|k: int| at <= k < before.len() ==> key_less(keys[i], keys[#[trigger] before[k]]),
        at > 0 ==> !key_less(keys[i], keys[before[at - 1]]),
    decreases from,
{
    if from > 0 && key_less(keys[i], keys[before[from - 1]]) {
        lemma_place(keys, before, i, from - 1)
    } else {
        from
    }
}

proof fn lemma_order_of_first(keys: Seq<(u64, u128)>, n: nat) -> (order: Seq<int>)
    requires
        n <= keys.len(),
    ensures
        sums::is_permutation(order, n),
        forall|i: int, j: int|
            0 <= i < j < n ==> goes_before(keys, #[trigger] order[i], #[trigger] order[j]),
    decreases n,
{
    if n == 0 {
        seq![]
    } else {
        let i = n - 1;
        let before = lemma_order_of_first(keys, i as nat);
        let at = lemma_place(keys, before, i, i);
        let order = before.insert(at, i);
        assert forall|a: int| 0 <= a < n implies 0 <= #[trigger] order[a] < n by {
            if a < at {
                assert(order[a] == before[a]);
            } else if a > at {
                assert(order[a] == before[a - 1]);
            }
        }
        assert forall|a: int, b: int| 0 <= a < b < n implies #[trigger] order[a]
            != #[trigger] order[b] && goes_before(keys, order[a], order[b]) by {
            if b == at {
                assert(0 <= before[a] < i);
                assert(0 <= before[at - 1] < i);
                if a < at - 1 {
                    assert(goes_before(keys, before[a], before[at - 1]));
                }
            } else if a == at {
                assert(0 <= before[b - 1] < i);
            } else {
                let x = if a < at {
                    a
                } else {
                    a - 1
                };
                let y = if b < at {
                    b
                } else {
                    b - 1
                };
                assert(goes_before(keys, before[x], before[y]));
                assert(before[x] != before[y]);
            }
        }
        order
    }
}

/// There is a stable order.
pub proof fn law_stable_order_exists(keys: Seq<(u64, u128)>)
    ensures
        exists|order: Seq<int>| #[trigger] is_stable_order(keys, order),
{
    let order = lemma_order_of_first(keys, keys.len());
    assert(is_stable_order(keys, order));
}

/// Find the stable order of items by their keys.
pub fn stable_order(keys: &Vec<(u64, u128)>) -> (order: Vec<usize>)
    ensures
        is_stable_order(keys@, solver::indices(order@)),
{
    let n: usize = keys.len();
    let mut order: Vec<usize> = Vec::with_capacity(n);
    for i in 0..n
        invariant
            n == keys@.len(),
            order@.len() == i,
            sums::is_permutation(solver::indices(order@), i as nat),
            forall|a: int, b: int|
                0 <= a < b < i ==> goes_before(
                    keys@,
                    #[trigger] order@[a] as int,
                    #[trigger] order@[b] as int,
                ),
    {
        let ghost before = order@;
        proof {
            let v = solver::indices(before);
            assert forall|k: int| 0 <= k < i implies 0 <= #[trigger] before[k] < i by {
                assert(0 <= v[k] < i);
            }
        }
        let mut at: usize = i;
        while at > 0 && key_smaller(keys[i], keys[order[at - 1]])
            invariant
                n == keys@.len(),
                i < n,
                at <= i,
                order@.len() == i,
                order@ == before,
                forall|k: int| 0 <= k < i ==> 0 <= #[trigger] before[k] < i,
                forall|k: int| at <= k < i ==> key_less(keys@[i as int], keys@[#[trigger] before[k] as int]),
            decreases at,
        {
            at = at - 1;
        }
        order.insert(at, i);
        proof {
            let v = solver::indices(before);
            let w = solver::indices(order@);
            assert forall|a: int| 0 <= a < i + 1 implies 0 <= #[trigger] w[a] < i + 1 by {
                if a < at {
                    assert(w[a] == before[a]);
                } else if a > at {
                    assert(w[a] == before[a - 1]);
                }
            }
            assert forall|a: int, b: int| 0 <= a < b < i + 1 implies #[trigger] w[a]
                != #[trigger] w[b] by {
                if a < at && b < at {
                    assert(v[a] != v[b]);
                } else if a < at && b > at {
                    assert(v[a] != v[b - 1]);
                } else if a > at {
                    assert(v[a - 1] != v[b - 1]);
                } else if b == at {
                    assert(0 <= before[a] < i);
                } else {
                    assert(0 <= before[b - 1] < i);
                }
            }
            assert forall|a: int, b: int| 0 <= a < b < i + 1 implies goes_before(
                keys@,
                #[trigger] order@[a] as int,
                #[trigger] order@[b] as int,
            ) by {
                if b == at {
                    // The new item follows all items that are not larger.
                    assert(0 <= before[a] < i);
                    let last = before[at - 1] as int;
                    assert(0 <= before[at - 1] < i);
                    assert(!key_less(keys@[i as int], keys@[last]));
                    if a < at - 1 {
                        assert(goes_before(keys@, before[a] as int, before[at - 1] as int));
                    }
                } else if a == at {
                    assert(key_less(keys@[i as int], keys@[before[b - 1] as int]));
                } else {
                    let x = if a < at {
                        a
                    } else {
                        a - 1
                    };
                    let y = if b < at {
                        b
                    } else {
                        b - 1
                    };
                    assert(goes_before(keys@, before[x] as int, before[y] as int));
                }
            }
        }
    }
    proof {
        let v = solver::indices(order@);
        assert forall|i: int, j: int| 0 <= i < j < keys@.len() implies goes_before(
            keys@,
            #[trigger] v[i],
            #[trigger] v[j],
        ) by {
            assert(goes_before(keys@, order@[i] as int, order@[j] as int));
        }
    }
    order
}

/// Key `a` is smaller than key `b`.
fn key_smaller(a: (u64, u128), b: (u64, u128)) -> (r: bool)
    ensures
        r == key_less(a, b),
{
    a.0 < b.0 || (a.0 == b.0 && a.1 < b.1)
}

} // verus!
