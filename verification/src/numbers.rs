//! Numbers as little-endian bytes.

use vstd::arithmetic::power::*;
use vstd::prelude::*;

verus! {

/// The number whose little-endian bytes are `s`.
pub open spec fn number(s: Seq<u8>) -> nat
    decreases s.len(),
{
    if s.len() == 0 {
        0
    } else {
        s[0] as nat + 256 * number(s.skip(1))
    }
}

/// The `n` lowest little-endian bytes of a number.
pub open spec fn le_bytes(x: nat, n: nat) -> Seq<u8>
    decreases n,
{
    if n == 0 {
        seq![]
    } else {
        seq![(x % 256) as u8] + le_bytes(x / 256, (n - 1) as nat)
    }
}

/// A number of `n` bytes is below 256 to the power `n`.
pub proof fn lemma_number_bound(s: Seq<u8>)
    ensures
        number(s) < pow(256, s.len()),
    decreases s.len(),
{
    reveal(pow);
    if s.len() > 0 {
        lemma_number_bound(s.skip(1));
    }
}

pub proof fn lemma_pow_256()
    ensures
        pow(256, 4) == 0x1_0000_0000,
        pow(256, 8) == 0x1_0000_0000_0000_0000,
        pow(256, 16) == 0x1_0000_0000_0000_0000_0000_0000_0000_0000,
{
    reveal_with_fuel(pow, 17);
}

pub proof fn lemma_number_of_16(s: Seq<u8>)
    requires
        s.len() <= 16,
    ensures
        number(s) <= u128::MAX,
        s.len() <= 8 ==> number(s) <= u64::MAX,
        s.len() <= 4 ==> number(s) <= u32::MAX,
{
    lemma_number_bound(s);
    lemma_pow_256();
    lemma_pow_increases(256, s.len(), 16);
    if s.len() <= 8 {
        lemma_pow_increases(256, s.len(), 8);
    }
    if s.len() <= 4 {
        lemma_pow_increases(256, s.len(), 4);
    }
}

pub proof fn lemma_number_injective(a: Seq<u8>, b: Seq<u8>)
    requires
        a.len() == b.len(),
        number(a) == number(b),
    ensures
        a == b,
    decreases a.len(),
{
    if a.len() > 0 {
        lemma_number_injective(a.skip(1), b.skip(1));
        assert forall|i: int| 0 <= i < a.len() implies a[i] == b[i] by {
            if i > 0 {
                assert(a[i] == a.skip(1)[i - 1]);
                assert(b[i] == b.skip(1)[i - 1]);
            }
        }
    }
    assert(a =~= b);
}

/// Reading back the little-endian bytes of a number gives the number, if it fits in them.
pub proof fn law_number_of_bytes(x: nat, n: nat)
    requires
        x < pow(256, n),
    ensures
        le_bytes(x, n).len() == n,
        number(le_bytes(x, n)) == x,
    decreases n,
{
    reveal(pow);
    if n > 0 {
        let m = (n - 1) as nat;
        assert(x / 256 < pow(256, m)) by (nonlinear_arith)
            requires
                x < 256 * pow(256, m),
        ;
        law_number_of_bytes(x / 256, m);
        let s = le_bytes(x, n);
        assert(s.skip(1) =~= le_bytes(x / 256, m));
    }
}

pub proof fn lemma_le_bytes_len(x: nat, n: nat)
    ensures
        le_bytes(x, n).len() == n,
    decreases n,
{
    if n > 0 {
        lemma_le_bytes_len(x / 256, (n - 1) as nat);
    }
}

/// The number in the `n` bytes at `p`.
pub fn read_le(data: &[u8], p: usize, n: usize) -> (r: u64)
    requires
        n <= 8,
        p + n <= data@.len(),
    ensures
        r == number(data@.subrange(p as int, p + n)),
{
    let ghost s = data@.subrange(p as int, p + n);
    let total: usize = data.len();
    let mut value: u64 = 0;
    let mut i: usize = n;
    proof {
        lemma_number_of_16(s);
    }
    assert(s.skip(n as int) =~= seq![]);
    while i > 0
        invariant
            i <= n <= 8,
            total == data@.len(),
            p + n <= total,
            s == data@.subrange(p as int, p + n),
            value == number(s.skip(i as int)),
        decreases i,
    {
        proof {
            let here = s.skip(i - 1);
            assert(here.skip(1) =~= s.skip(i as int));
            assert(here[0] == data@[p + i - 1]);
            lemma_number_of_16(here);
        }
        i = i - 1;
        value = value * 256 + data[p + i] as u64;
    }
    assert(s.skip(0) =~= s);
    value
}

/// Append the `n` lowest little-endian bytes of a number.
pub fn write_le(out: &mut Vec<u8>, x: u64, n: usize)
    ensures
        final(out)@ == old(out)@ + le_bytes(x as nat, n as nat),
{
    let mut rest: u64 = x;
    for i in 0..n
        invariant
            out@ + le_bytes(rest as nat, (n - i) as nat) == old(out)@ + le_bytes(
                x as nat,
                n as nat,
            ),
    {
        let ghost before = out@;
        let ghost tail = le_bytes((rest / 256) as nat, (n - i - 1) as nat);
        let byte: u8 = (rest % 256) as u8;
        out.push(byte);
        proof {
            assert(le_bytes(rest as nat, (n - i) as nat) == seq![byte] + tail);
            assert(before + (seq![byte] + tail) =~= out@ + tail);
        }
        rest = rest / 256;
    }
    assert(out@ + le_bytes(rest as nat, 0) =~= out@);
}

} // verus!
