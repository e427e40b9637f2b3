//! Numbers and messages as text.

use vstd::prelude::*;
use vstd::string::*;

verus! {

/// The decimal digit `d`.
pub open spec fn digit(d: nat) -> char {
    if d == 0 {
        '0'
    } else if d == 1 {
        '1'
    } else if d == 2 {
        '2'
    } else if d == 3 {
        '3'
    } else if d == 4 {
        '4'
    } else if d == 5 {
        '5'
    } else if d == 6 {
        '6'
    } else if d == 7 {
        '7'
    } else if d == 8 {
        '8'
    } else {
        '9'
    }
}

/// The decimal digits of `n`, without leading zeros.
pub open spec fn decimal_digits(n: nat) -> Seq<char>
    decreases n,
{
    if n < 10 {
        seq![digit(n)]
    } else {
        decimal_digits(n / 10).push(digit(n % 10))
    }
}

/// `count` zeros.
pub open spec fn zero_digits(count: nat) -> Seq<char> {
    Seq::new(count, |i: int| '0')
}

/// The decimal digits of `n`, filled up with leading zeros to `width` digits.
pub open spec fn padded_digits(n: nat, width: nat) -> Seq<char> {
    let digits = decimal_digits(n);
    if digits.len() < width {
        zero_digits((width - digits.len()) as nat) + digits
    } else {
        digits
    }
}

fn digit_text(d: u64) -> (r: &'static str)
    requires
        d < 10,
    ensures
        r@ == seq![digit(d as nat)],
{
    proof {
        reveal_strlit("0");
        reveal_strlit("1");
        reveal_strlit("2");
        reveal_strlit("3");
        reveal_strlit("4");
        reveal_strlit("5");
        reveal_strlit("6");
        reveal_strlit("7");
        reveal_strlit("8");
        reveal_strlit("9");
    }
    let r: &'static str = match d {
        0 => "0",
        1 => "1",
        2 => "2",
        3 => "3",
        4 => "4",
        5 => "5",
        6 => "6",
        7 => "7",
        8 => "8",
        _ => "9",
    };
    assert(r@ =~= seq![digit(d as nat)]);
    r
}

/// The decimal digits of a number.
pub fn decimal(n: u64) -> (r: String)
    ensures
        r@ == decimal_digits(n as nat),
    decreases n,
{
    if n < 10 {
        digit_text(n).to_owned()
    } else {
        let mut r = decimal(n / 10);
        r.append(digit_text(n % 10));
        assert(r@ =~= decimal_digits(n as nat));
        r
    }
}

/// The number of decimal digits of a number.
pub fn decimal_len(n: u64) -> (r: usize)
    ensures
        r == decimal_digits(n as nat).len(),
        1 <= r <= 20,
{
    let mut r: usize = 1;
    let mut rest: u64 = n;
    proof {
        assert(vstd::arithmetic::power::pow(10, 20) == 100_000_000_000_000_000_000) by {
            reveal_with_fuel(vstd::arithmetic::power::pow, 21);
        }
        lemma_digits_bound(n as nat, 20);
        lemma_digits_nonempty(n as nat);
    }
    while rest >= 10
        invariant
            r + decimal_digits(rest as nat).len() == decimal_digits(n as nat).len() + 1,
            decimal_digits(n as nat).len() <= 20,
            decimal_digits(rest as nat).len() >= 1,
            r >= 1,
        decreases rest,
    {
        proof {
            lemma_digits_nonempty((rest / 10) as nat);
        }
        rest = rest / 10;
        r = r + 1;
    }
    r
}

proof fn lemma_digits_nonempty(n: nat)
    ensures
        decimal_digits(n).len() >= 1,
    decreases n,
{
    if n >= 10 {
        lemma_digits_nonempty(n / 10);
    }
}

proof fn lemma_digits_bound(n: nat, k: nat)
    requires
        n < vstd::arithmetic::power::pow(10, k),
        k >= 1,
    ensures
        decimal_digits(n).len() <= k,
    decreases k,
{
    vstd::arithmetic::power::lemma_pow1(10);
    if n >= 10 {
        let j = (k - 1) as nat;
        reveal(vstd::arithmetic::power::pow);
        if k == 1 {
            assert(false);
        }
        assert(n / 10 < vstd::arithmetic::power::pow(10, j)) by (nonlinear_arith)
            requires
                n < 10 * vstd::arithmetic::power::pow(10, j),
        ;
        lemma_digits_bound(n / 10, j);
    }
}

/// The decimal digits of a number, filled up with leading zeros to `width` digits.
pub fn padded(n: u64, width: usize) -> (r: String)
    ensures
        r@ == padded_digits(n as nat, width as nat),
{
    let digits = decimal(n);
    let len: usize = decimal_len(n);
    if len >= width {
        return digits;
    }
    proof {
        reveal_strlit("0");
    }
    let mut r: String = String::new();
    for i in 0..width - len
        invariant
            r@ == zero_digits(i as nat),
            "0"@ =~= seq!['0'],
    {
        r.append("0");
        assert(r@ =~= zero_digits((i + 1) as nat));
    }
    r.append(digits.as_str());
    r
}

/// Numbers are written with digits.
pub proof fn lemma_all_digits(n: nat, width: nat)
    ensures
        forall|i: int|
            0 <= i < decimal_digits(n).len() ==> '0' <= #[trigger] decimal_digits(n)[i] <= '9',
        forall|i: int|
            0 <= i < padded_digits(n, width).len() ==> '0' <= #[trigger] padded_digits(n, width)[i]
                <= '9',
    decreases n,
{
    if n >= 10 {
        lemma_all_digits(n / 10, width);
        let before = decimal_digits(n / 10);
        let all = decimal_digits(n);
        assert forall|i: int| 0 <= i < all.len() implies '0' <= #[trigger] all[i] <= '9' by {
            if i < before.len() {
                assert(all[i] == before[i]);
            }
        }
    }
    let digits = decimal_digits(n);
    let all = padded_digits(n, width);
    assert forall|i: int| 0 <= i < all.len() implies '0' <= #[trigger] all[i] <= '9' by {
        if digits.len() < width && i >= width - digits.len() {
            assert(all[i] == digits[i - (width - digits.len())]);
        }
    }
}

/// The number that decimal digits stand for.
pub open spec fn digits_value(digits: Seq<char>) -> int
    decreases digits.len(),
{
    if digits.len() == 0 {
        0
    } else {
        10 * digits_value(digits.drop_last()) + (digits.last() as int - '0' as int)
    }
}

proof fn lemma_value_of_digits(n: nat)
    ensures
        digits_value(decimal_digits(n)) == n,
    decreases n,
{
    let digits = decimal_digits(n);
    if n < 10 {
        assert(digits.drop_last() =~= seq![]);
        assert(digits_value(digits.drop_last()) == 0);
        assert(digits.last() == digit(n));
    } else {
        assert(digits.last() == digit(n % 10));
        lemma_value_of_digits(n / 10);
        assert(digits.drop_last() =~= decimal_digits(n / 10));
    }
}

proof fn lemma_leading_zeros(digits: Seq<char>, count: nat)
    ensures
        digits_value(zero_digits(count) + digits) == digits_value(digits),
    decreases digits.len(), count,
{
    let all = zero_digits(count) + digits;
    if digits.len() > 0 {
        lemma_leading_zeros(digits.drop_last(), count);
        assert(all.drop_last() =~= zero_digits(count) + digits.drop_last());
    } else if count > 0 {
        lemma_leading_zeros(digits, (count - 1) as nat);
        assert(all.drop_last() =~= zero_digits((count - 1) as nat) + digits);
    }
}

/// The digits of a number stand for it, with leading zeros too.
pub proof fn law_padded_digits(n: nat, width: nat)
    ensures
        digits_value(padded_digits(n, width)) == n,
{
    let digits = decimal_digits(n);
    lemma_value_of_digits(n);
    if digits.len() < width {
        lemma_leading_zeros(digits, (width - digits.len()) as nat);
    }
}

/// A smaller number has no more digits.
pub proof fn lemma_digits_ascend(a: nat, b: nat)
    requires
        a <= b,
    ensures
        decimal_digits(a).len() <= decimal_digits(b).len(),
    decreases b,
{
    lemma_digits_nonempty(b);
    if a >= 10 {
        lemma_digits_ascend(a / 10, b / 10);
    }
}

/// Numbers are written with decimal digits, without leading zeros; or filled up with them to a width.
pub proof fn law_numbers_are_written_in_decimal(n: nat, width: nat)
    ensures
        decimal_digits(n).len() >= 1,
        forall|i: int|
            0 <= i < decimal_digits(n).len() ==> '0' <= #[trigger] decimal_digits(n)[i] <= '9',
        digits_value(decimal_digits(n)) == n,
        decimal_digits(n)[0] == '0' ==> n == 0 && decimal_digits(n).len() == 1,
        padded_digits(n, width).len() == (if decimal_digits(n).len() >= width {
            decimal_digits(n).len()
        } else {
            width
        }),
        digits_value(padded_digits(n, width)) == n,
        forall|i: int|
            0 <= i < padded_digits(n, width).len() ==> '0' <= #[trigger] padded_digits(n, width)[i]
                <= '9',
{
    lemma_digits_nonempty(n);
    lemma_all_digits(n, width);
    lemma_value_of_digits(n);
    law_padded_digits(n, width);
    lemma_first_digit(n);
}

proof fn lemma_first_digit(n: nat)
    ensures
        decimal_digits(n)[0] == '0' ==> n == 0,
        n == 0 ==> decimal_digits(n).len() == 1,
    decreases n,
{
    if n >= 10 {
        lemma_first_digit(n / 10);
        lemma_digits_nonempty(n / 10);
        assert(decimal_digits(n)[0] == decimal_digits(n / 10)[0]);
    }
}

} // verus!
